//! The string-template side of page rendering: `{{hole}}` filling, escaping
//! and the URLs every page links by.
use vstd::prelude::*;

use crate::config::{AUTHOR, BIRTH_YEAR, DESCRIPTION, TITLE, WEBSITE};
use crate::content::{opt_view, Post};
use crate::frontmatter::strs_view;
use crate::model::slug_spec;
use crate::text::{
    chars_of, decimal, find, find_pat, lemma_find_pat_bounds, padded, push_char, push_decimal,
    push_range, push_signed, push_str, range_eq, signed_decimal, str_eq,
};
use vstd::utf8::encode_utf8;

verus! {

/// Holes as plain values: each name with its value.
pub type Holes = Seq<(Seq<char>, Seq<char>)>;

pub open spec fn holes_view(v: Seq<(&str, &str)>) -> Holes {
    v.map_values(|h: (&str, &str)| (h.0@, h.1@))
}

pub open spec fn names_of(h: Holes) -> Seq<Seq<char>> {
    h.map_values(|x: (Seq<char>, Seq<char>)| x.0)
}

/// The value of the first hole among `holes[k..]` named `name`.
pub open spec fn hole_value(holes: Holes, name: Seq<char>, k: int) -> Option<Seq<char>>
    decreases holes.len() - k,
{
    if !(0 <= k < holes.len()) {
        None
    } else if holes[k].0 == name {
        Some(holes[k].1)
    } else {
        hole_value(holes, name, k + 1)
    }
}

/// Where the chunk that follows the `{{` at `k` ends: at the next `{{`.
pub open spec fn chunk_end(t: Seq<char>, k: int) -> int {
    match find_pat(t, k + 2, t.len() as int, "{{"@) {
        Some(n) => n,
        None => t.len() as int,
    }
}

/// Every hole named in the chunks from the `{{` at `k` on is one of `names`.
pub open spec fn holes_known(t: Seq<char>, k: int, names: Seq<Seq<char>>) -> bool
    decreases t.len() - k,
{
    if !(0 <= k && k + 2 <= t.len()) {
        true
    } else {
        let n = chunk_end(t, k);
        let named = match find_pat(t, k + 2, n, "}}"@) {
            Some(c) => names.contains(t.subrange(k + 2, c)),
            None => true,
        };
        named && (if k < n < t.len() { holes_known(t, n, names) } else { true })
    }
}

/// The chunks from the `{{` at `k` on, each hole replaced by its value; a
/// chunk with no `}}` keeps its `{{`.
pub open spec fn chunks_from(t: Seq<char>, k: int, holes: Holes) -> Seq<char>
    decreases t.len() - k,
{
    if !(0 <= k && k + 2 <= t.len()) {
        seq![]
    } else {
        let n = chunk_end(t, k);
        let piece = match find_pat(t, k + 2, n, "}}"@) {
            Some(c) => match hole_value(holes, t.subrange(k + 2, c), 0) {
                Some(v) => v + t.subrange(c + 2, n),
                None => seq![],
            },
            None => "{{"@ + t.subrange(k + 2, n),
        };
        piece + if k < n < t.len() { chunks_from(t, n, holes) } else { seq![] }
    }
}

/// `t` with every `{{name}}` filled from `holes`.
pub open spec fn fill_spec(t: Seq<char>, holes: Holes) -> Seq<char> {
    match find_pat(t, 0, t.len() as int, "{{"@) {
        None => t,
        Some(k) => t.subrange(0, k) + chunks_from(t, k, holes),
    }
}

/// Every hole `t` names is one of `names`.
pub open spec fn fill_ok(t: Seq<char>, names: Seq<Seq<char>>) -> bool {
    match find_pat(t, 0, t.len() as int, "{{"@) {
        None => true,
        Some(k) => holes_known(t, k, names),
    }
}

proof fn lemma_hole_value(holes: Holes, name: Seq<char>, k: int)
    requires
        0 <= k,
    ensures
        hole_value(holes, name, k) is None ==> forall|j: int| k <= j < holes.len() ==> (#[trigger] holes[j]).0 != name,
    decreases holes.len() - k,
{
    if 0 <= k < holes.len() && holes[k].0 != name {
        lemma_hole_value(holes, name, k + 1);
    }
}

fn hole_at<'a>(holes: &[(&str, &'a str)], t: &[char], a: usize, b: usize) -> (r: Option<&'a str>)
    requires
        a <= b <= t@.len(),
    ensures
        match r {
            Some(v) => hole_value(holes_view(holes@), t@.subrange(a as int, b as int), 0) == Some(v@),
            None => hole_value(holes_view(holes@), t@.subrange(a as int, b as int), 0) is None,
        },
{
    let ghost hv = holes_view(holes@);
    let mut k: usize = 0;
    while k < holes.len()
        invariant
            a <= b <= t@.len(),
            k <= holes@.len(),
            hv == holes_view(holes@),
            hole_value(hv, t@.subrange(a as int, b as int), 0) == hole_value(
                hv,
                t@.subrange(a as int, b as int),
                k as int,
            ),
        decreases holes@.len() - k,
    {
        if range_eq(t, a, b, holes[k].0) {
            return Some(holes[k].1);
        }
        k += 1;
    }
    None
}

/// Fills every `{{name}}` in `template` from `holes`. A `{{` with no `}}`
/// before the next `{{` is kept as it is; every hole named must be one of
/// `holes`.
pub fn fill(template: &str, holes: &[(&str, &str)]) -> (r: String)
    requires
        fill_ok(template@, names_of(holes_view(holes@))),
    ensures
        r@ == fill_spec(template@, holes_view(holes@)),
{
    let ghost hv = holes_view(holes@);
    let t = chars_of(template);
    let len = t.len();
    proof {
        reveal_strlit("{{");
        reveal_strlit("}}");
        lemma_find_pat_bounds(t@, 0, len as int, "{{"@);
    }
    let mut k = match find(&t, 0, len, "{{") {
        None => {
            let mut out = String::new();
            push_range(&mut out, &t, 0, len);
            assert(t@.subrange(0, len as int) =~= t@);
            return out;
        },
        Some(k) => k,
    };
    let mut out = String::new();
    push_range(&mut out, &t, 0, k);
    loop
        invariant
            k + 2 <= len == t@.len(),
            t@ == template@,
            hv == holes_view(holes@),
            holes_known(t@, k as int, names_of(hv)),
            fill_spec(template@, hv) == out@ + chunks_from(t@, k as int, hv),
        decreases len - k,
    {
        proof {
            reveal_strlit("{{");
            reveal_strlit("}}");
            lemma_find_pat_bounds(t@, k + 2, len as int, "{{"@);
        }
        let n = match find(&t, k + 2, len, "{{") {
            Some(n) => n,
            None => len,
        };
        proof { lemma_find_pat_bounds(t@, k + 2, n as int, "}}"@); }
        let ghost before = out@;
        match find(&t, k + 2, n, "}}") {
            Some(c) => {
                let v = match hole_at(holes, &t, k + 2, c) {
                    Some(v) => v,
                    None => {
                        proof {
                            let name = t@.subrange(k + 2, c as int);
                            lemma_hole_value(hv, name, 0);
                            let j = choose|j: int| 0 <= j < names_of(hv).len() && names_of(hv)[j] == name;
                            assert(hv[j].0 == name);
                        }
                        assert(false);
                        ""
                    },
                };
                push_str(&mut out, v);
                push_range(&mut out, &t, c + 2, n);
            },
            None => {
                push_str(&mut out, "{{");
                push_range(&mut out, &t, k + 2, n);
            },
        }
        if n >= len {
            assert(out@ =~= before + chunks_from(t@, k as int, hv));
            return out;
        }
        assert(before + chunks_from(t@, k as int, hv) =~= out@ + chunks_from(t@, n as int, hv));
        k = n;
    }
}

/// Whether every hole `template` names is one of `names`.
pub fn holes_named(template: &str, names: &[&str]) -> (r: bool)
    ensures
        r == fill_ok(template@, crate::frontmatter::strs_view(names@)),
{
    let ghost ns = crate::frontmatter::strs_view(names@);
    let t = chars_of(template);
    let len = t.len();
    proof {
        reveal_strlit("{{");
        reveal_strlit("}}");
        lemma_find_pat_bounds(t@, 0, len as int, "{{"@);
    }
    let mut k = match find(&t, 0, len, "{{") {
        None => return true,
        Some(k) => k,
    };
    loop
        invariant
            k + 2 <= len == t@.len(),
            t@ == template@,
            ns == crate::frontmatter::strs_view(names@),
            fill_ok(template@, ns) == holes_known(t@, k as int, ns),
        decreases len - k,
    {
        proof {
            reveal_strlit("{{");
            reveal_strlit("}}");
            lemma_find_pat_bounds(t@, k + 2, len as int, "{{"@);
        }
        let n = match find(&t, k + 2, len, "{{") {
            Some(n) => n,
            None => len,
        };
        proof { lemma_find_pat_bounds(t@, k + 2, n as int, "}}"@); }
        match find(&t, k + 2, n, "}}") {
            Some(c) => {
                let mut i: usize = 0;
                let mut known = false;
                while i < names.len()
                    invariant
                        i <= names@.len(),
                        k + 2 <= c <= t@.len(),
                        ns == crate::frontmatter::strs_view(names@),
                        known == exists|j: int| 0 <= j < i && ns[j] == t@.subrange(k + 2, c as int),
                    decreases names@.len() - i,
                {
                    proof { assert(ns[i as int] == names@[i as int]@); }
                    if range_eq(&t, k + 2, c, names[i]) {
                        known = true;
                    }
                    i += 1;
                }
                if !known {
                    proof {
                        let name = t@.subrange(k + 2, c as int);
                        if ns.contains(name) {
                            let j = choose|j: int| 0 <= j < ns.len() && ns[j] == name;
                            assert(ns[j] == name);
                        }
                    }
                    return false;
                }
            },
            None => {},
        }
        if n >= len {
            return true;
        }
        k = n;
    }
}

/// What `esc` writes for one character.
pub open spec fn esc_char(c: char) -> Seq<char> {
    if c == '&' {
        "&amp;"@
    } else if c == '<' {
        "&lt;"@
    } else if c == '>' {
        "&gt;"@
    } else if c == '"' {
        "&quot;"@
    } else if c == '\'' {
        "&#39;"@
    } else {
        seq![c]
    }
}

pub open spec fn esc_spec(s: Seq<char>) -> Seq<char>
    decreases s.len(),
{
    if s.len() == 0 {
        seq![]
    } else {
        esc_spec(s.drop_last()) + esc_char(s.last())
    }
}

/// Escapes the five characters that change meaning in content or in a quoted
/// attribute.
pub fn esc(raw: &str) -> (r: String)
    ensures
        r@ == esc_spec(raw@),
{
    let cs = chars_of(raw);
    let mut out = String::new();
    let mut k: usize = 0;
    while k < cs.len()
        invariant
            k <= cs@.len(),
            cs@ == raw@,
            out@ == esc_spec(cs@.subrange(0, k as int)),
        decreases cs@.len() - k,
    {
        let c = cs[k];
        if c == '&' {
            push_str(&mut out, "&amp;");
        } else if c == '<' {
            push_str(&mut out, "&lt;");
        } else if c == '>' {
            push_str(&mut out, "&gt;");
        } else if c == '"' {
            push_str(&mut out, "&quot;");
        } else if c == '\'' {
            push_str(&mut out, "&#39;");
        } else {
            push_char(&mut out, c);
        }
        assert(cs@.subrange(0, k + 1).drop_last() =~= cs@.subrange(0, k as int));
        k += 1;
    }
    assert(cs@.subrange(0, cs@.len() as int) =~= cs@);
    out
}

/// A tag as it appears in a URL: every byte of it but ASCII letters, digits,
/// `-` and `_` percent-encoded.
pub fn tag_slug(tag: &str) -> (r: String)
    ensures
        r@ == slug_spec(encode_utf8(tag@)),
{
    crate::model::tag_slug(tag)
}

pub fn post_url(slug: &str) -> (r: String)
    ensures
        r@ == "/blog/"@ + slug@ + "/"@,
{
    let mut out = String::new();
    push_str(&mut out, "/blog/");
    push_str(&mut out, slug);
    push_str(&mut out, "/");
    out
}

pub fn fragment_url(slug: &str) -> (r: String)
    ensures
        r@ == "/blog/"@ + slug@ + "/fragment"@,
{
    let mut out = String::new();
    push_str(&mut out, "/blog/");
    push_str(&mut out, slug);
    push_str(&mut out, "/fragment");
    out
}

pub fn tag_url(tag: &str) -> (r: String)
    ensures
        r@ == "/tag/"@ + slug_spec(encode_utf8(tag@)) + "/"@,
{
    let mut out = String::new();
    push_str(&mut out, "/tag/");
    let slug = tag_slug(tag);
    push_str(&mut out, slug.as_str());
    push_str(&mut out, "/");
    out
}

/// A link htmx may boost: a page of this site, by its directory URL.
pub fn boostable(href: &str) -> (r: bool)
    ensures
        r == (href@.len() > 0 && href@[0] == '/' && href@.last() == '/'),
{
    let cs = chars_of(href);
    cs.len() > 0 && cs[0] == '/' && cs[cs.len() - 1] == '/'
}

pub struct Page<'a> {
    pub title: &'a str,
    pub description: &'a str,
    pub canonical: &'a str,
    pub body: String,
}

impl<'a> Page<'a> {
    /// The page as plain values: title, description, canonical URL, body.
    pub open spec fn view_parts(self) -> (Seq<char>, Seq<char>, Seq<char>, Seq<char>) {
        (self.title@, self.description@, self.canonical@, self.body@)
    }
}

// -- Templates ----------------------------------------------------------------

/// The template files every page is built from, under `templates/`.
pub open spec fn theme_names() -> Seq<Seq<char>> {
    seq![
        "layout.html"@, "reload.html"@, "home.html"@, "listing.html"@, "post_item.html"@,
        "link_item.html"@, "link_item_ext.html"@, "article.html"@, "tag_link.html"@,
        "subtitle.html"@, "post.html"@, "tag_item.html"@,
    ]
}

/// The holes each template may name, in the order of `theme_names()`: the
/// ones its page fills.
pub open spec fn theme_holes(k: int) -> Seq<Seq<char>> {
    if k == 0 {
        seq![
            "title"@, "description"@, "author"@, "site_title"@, "website"@, "canonical"@, "year"@,
            "reload"@, "body"@,
        ]
    } else if k == 1 {
        seq!["js"@]
    } else if k == 2 {
        seq!["title"@, "age"@, "links"@, "posts"@]
    } else if k == 3 {
        seq!["back_url"@, "back_label"@, "heading"@, "class"@, "items"@]
    } else if k == 4 {
        seq!["date"@, "url"@, "title"@, "fragment"@]
    } else if k == 5 || k == 6 {
        seq!["href"@, "name"@]
    } else if k == 7 {
        seq!["title"@, "date"@, "tags"@, "subtitle"@, "html"@]
    } else if k == 8 {
        seq!["url"@, "name"@]
    } else if k == 9 {
        seq!["text"@]
    } else if k == 10 {
        seq!["author"@, "article"@]
    } else {
        seq!["url"@, "name"@, "count"@]
    }
}

pub open spec fn files_view(files: Seq<(String, String)>) -> Seq<(Seq<char>, Seq<char>)> {
    files.map_values(|f: (String, String)| (f.0@, f.1@))
}

/// The text of the first file named `name` among `files[k..]`.
pub open spec fn file_of(files: Seq<(Seq<char>, Seq<char>)>, name: Seq<char>, k: int) -> Option<Seq<char>>
    decreases files.len() - k,
{
    if !(0 <= k < files.len()) {
        None
    } else if files[k].0 == name {
        Some(files[k].1)
    } else {
        file_of(files, name, k + 1)
    }
}

/// What is wrong with the template `name` among `files`, if anything.
pub open spec fn template_error(files: Seq<(Seq<char>, Seq<char>)>, name: Seq<char>, holes: Seq<Seq<char>>) -> Option<Seq<char>> {
    match file_of(files, name, 0) {
        None => Some("missing template "@ + name),
        Some(t) => if fill_ok(t, holes) {
            None
        } else {
            Some(name + " names a hole its page does not fill"@)
        },
    }
}

/// The first thing wrong with the templates `theme_names()[k..]`.
pub open spec fn theme_error(files: Seq<(Seq<char>, Seq<char>)>, k: int) -> Option<Seq<char>>
    decreases theme_names().len() - k,
{
    if !(0 <= k < theme_names().len()) {
        None
    } else {
        match template_error(files, theme_names()[k], theme_holes(k)) {
            Some(e) => Some(e),
            None => theme_error(files, k + 1),
        }
    }
}

/// The page templates, each holding only holes its page fills.
pub struct Theme {
    layout: String,
    reload: String,
    home: String,
    listing: String,
    post_item: String,
    link_item: String,
    link_item_ext: String,
    article: String,
    tag_link: String,
    subtitle: String,
    post: String,
    tag_item: String,
}

impl Theme {
    /// The text of the template `theme_names()[k]`.
    pub closed spec fn template(self, k: int) -> Seq<char> {
        if k == 0 {
            self.layout@
        } else if k == 1 {
            self.reload@
        } else if k == 2 {
            self.home@
        } else if k == 3 {
            self.listing@
        } else if k == 4 {
            self.post_item@
        } else if k == 5 {
            self.link_item@
        } else if k == 6 {
            self.link_item_ext@
        } else if k == 7 {
            self.article@
        } else if k == 8 {
            self.tag_link@
        } else if k == 9 {
            self.subtitle@
        } else if k == 10 {
            self.post@
        } else {
            self.tag_item@
        }
    }

    #[verifier::type_invariant]
    spec fn fits(self) -> bool {
        forall|k: int| 0 <= k < 12 ==> fill_ok(#[trigger] self.template(k), theme_holes(k))
    }
}

fn template_text(files: &[(String, String)], name: &str, holes: &[&str]) -> (r: Result<String, String>)
    ensures
        match (r, template_error(files_view(files@), name@, strs_view(holes@))) {
            (Ok(t), None) => file_of(files_view(files@), name@, 0) == Some(t@),
            (Err(e), Some(m)) => e@ == m,
            _ => false,
        },
{
    let ghost fv = files_view(files@);
    let mut k: usize = 0;
    while k < files.len()
        invariant
            k <= files@.len(),
            fv == files_view(files@),
            file_of(fv, name@, 0) == file_of(fv, name@, k as int),
        decreases files@.len() - k,
    {
        proof { assert(fv[k as int] == (files@[k as int].0@, files@[k as int].1@)); }
        if str_eq(files[k].0.as_str(), name) {
            let t = files[k].1.clone();
            if holes_named(t.as_str(), holes) {
                return Ok(t);
            }
            let mut e = String::new();
            push_str(&mut e, name);
            push_str(&mut e, " names a hole its page does not fill");
            return Err(e);
        }
        k += 1;
    }
    let mut e = String::new();
    push_str(&mut e, "missing template ");
    push_str(&mut e, name);
    Err(e)
}

impl Theme {
    /// The theme, from the files of `templates/` as `(name, text)`: every
    /// template must be there and name only holes its page fills.
    pub fn load(files: &[(String, String)]) -> (r: Result<Theme, String>)
        ensures
            match (r, theme_error(files_view(files@), 0)) {
                (Ok(t), None) => forall|k: int| 0 <= k < 12 ==> file_of(
                    files_view(files@),
                    theme_names()[k],
                    0,
                ) == Some(#[trigger] t.template(k)),
                (Err(e), Some(m)) => e@ == m,
                _ => false,
            },
    {
        proof { reveal_with_fuel(theme_error, 13); }
        let ghost fv = files_view(files@);
        let h0: &[&str] = &["title", "description", "author", "site_title", "website", "canonical", "year", "reload", "body"];
        proof { assert(strs_view(h0@) =~= theme_holes(0)); }
        let layout = match template_text(files, "layout.html", h0) {
            Ok(t) => t,
            Err(e) => return Err(e),
        };
        let h1: &[&str] = &["js"];
        proof { assert(strs_view(h1@) =~= theme_holes(1)); }
        let reload = match template_text(files, "reload.html", h1) {
            Ok(t) => t,
            Err(e) => return Err(e),
        };
        let h2: &[&str] = &["title", "age", "links", "posts"];
        proof { assert(strs_view(h2@) =~= theme_holes(2)); }
        let home = match template_text(files, "home.html", h2) {
            Ok(t) => t,
            Err(e) => return Err(e),
        };
        let h3: &[&str] = &["back_url", "back_label", "heading", "class", "items"];
        proof { assert(strs_view(h3@) =~= theme_holes(3)); }
        let listing = match template_text(files, "listing.html", h3) {
            Ok(t) => t,
            Err(e) => return Err(e),
        };
        let h4: &[&str] = &["date", "url", "title", "fragment"];
        proof { assert(strs_view(h4@) =~= theme_holes(4)); }
        let post_item = match template_text(files, "post_item.html", h4) {
            Ok(t) => t,
            Err(e) => return Err(e),
        };
        let h5: &[&str] = &["href", "name"];
        proof { assert(strs_view(h5@) =~= theme_holes(5)); }
        let link_item = match template_text(files, "link_item.html", h5) {
            Ok(t) => t,
            Err(e) => return Err(e),
        };
        let h6: &[&str] = &["href", "name"];
        proof { assert(strs_view(h6@) =~= theme_holes(6)); }
        let link_item_ext = match template_text(files, "link_item_ext.html", h6) {
            Ok(t) => t,
            Err(e) => return Err(e),
        };
        let h7: &[&str] = &["title", "date", "tags", "subtitle", "html"];
        proof { assert(strs_view(h7@) =~= theme_holes(7)); }
        let article = match template_text(files, "article.html", h7) {
            Ok(t) => t,
            Err(e) => return Err(e),
        };
        let h8: &[&str] = &["url", "name"];
        proof { assert(strs_view(h8@) =~= theme_holes(8)); }
        let tag_link = match template_text(files, "tag_link.html", h8) {
            Ok(t) => t,
            Err(e) => return Err(e),
        };
        let h9: &[&str] = &["text"];
        proof { assert(strs_view(h9@) =~= theme_holes(9)); }
        let subtitle = match template_text(files, "subtitle.html", h9) {
            Ok(t) => t,
            Err(e) => return Err(e),
        };
        let h10: &[&str] = &["author", "article"];
        proof { assert(strs_view(h10@) =~= theme_holes(10)); }
        let post = match template_text(files, "post.html", h10) {
            Ok(t) => t,
            Err(e) => return Err(e),
        };
        let h11: &[&str] = &["url", "name", "count"];
        proof { assert(strs_view(h11@) =~= theme_holes(11)); }
        let tag_item = match template_text(files, "tag_item.html", h11) {
            Ok(t) => t,
            Err(e) => return Err(e),
        };
        let theme = Theme {
            layout,
            reload,
            home,
            listing,
            post_item,
            link_item,
            link_item_ext,
            article,
            tag_link,
            subtitle,
            post,
            tag_item,
        };
        Ok(theme)
    }
}

// -- Pages --------------------------------------------------------------------

/// `YYYY · MM · DD`.
pub open spec fn dotted_spec(d: (int, int, int)) -> Seq<char> {
    crate::date::year_text(d.0) + " · "@ + padded(d.1 as nat, 2) + " · "@ + padded(d.2 as nat, 2)
}

pub open spec fn tag_url_spec(tag: Seq<char>) -> Seq<char> {
    "/tag/"@ + slug_spec(encode_utf8(tag)) + "/"@
}

/// Every page inside the site's frame: title, meta, footer year, and the
/// live-reload script when there is one.
pub open spec fn layout_spec(
    theme: Theme,
    page: (Seq<char>, Seq<char>, Seq<char>, Seq<char>),
    year: int,
    reload: Option<Seq<char>>,
) -> Seq<char> {
    let r = match reload {
        Some(js) => fill_spec(theme.template(1), seq![("js"@, js)]),
        None => seq![],
    };
    fill_spec(
        theme.template(0),
        seq![
            ("title"@, esc_spec(page.0)),
            ("description"@, esc_spec(page.1)),
            ("author"@, esc_spec(AUTHOR@)),
            ("site_title"@, esc_spec(TITLE@)),
            ("website"@, WEBSITE@),
            ("canonical"@, page.2),
            ("year"@, signed_decimal(year)),
            ("reload"@, r),
            ("body"@, page.3),
        ],
    )
}

/// Fills template `k` of the theme.
fn fill_theme(theme: &Theme, k: usize, holes: &[(&str, &str)]) -> (r: String)
    requires
        k < 12,
        names_of(holes_view(holes@)) == theme_holes(k as int),
    ensures
        r@ == fill_spec(theme.template(k as int), holes_view(holes@)),
{
    proof {
        use_type_invariant(theme);
        assert(fill_ok(theme.template(k as int), theme_holes(k as int)));
    }
    let t: &str = if k == 0 {
        theme.layout.as_str()
    } else if k == 1 {
        theme.reload.as_str()
    } else if k == 2 {
        theme.home.as_str()
    } else if k == 3 {
        theme.listing.as_str()
    } else if k == 4 {
        theme.post_item.as_str()
    } else if k == 5 {
        theme.link_item.as_str()
    } else if k == 6 {
        theme.link_item_ext.as_str()
    } else if k == 7 {
        theme.article.as_str()
    } else if k == 8 {
        theme.tag_link.as_str()
    } else if k == 9 {
        theme.subtitle.as_str()
    } else if k == 10 {
        theme.post.as_str()
    } else {
        theme.tag_item.as_str()
    };
    fill(t, holes)
}

pub fn layout(theme: &Theme, page: &Page, year: i32, live_reload: Option<&str>) -> (r: String)
    ensures
        r@ == layout_spec(*theme, page.view_parts(), year as int, match live_reload {
            Some(js) => Some(js@),
            None => None,
        }),
{
    let reload = match live_reload {
        Some(js) => {
            let h: Vec<(&str, &str)> = vec![("js", js)];
            proof { assert(names_of(holes_view(h@)) =~= theme_holes(1)); }
            let r = fill_theme(theme, 1, h.as_slice());
            proof { assert(holes_view(h@) =~= seq![("js"@, js@)]); }
            r
        },
        None => String::new(),
    };
    let title = esc(page.title);
    let description = esc(page.description);
    let author = esc(AUTHOR);
    let site_title = esc(TITLE);
    let mut y = String::new();
    push_signed(&mut y, year as i64);
    let h: Vec<(&str, &str)> = vec![
        ("title", title.as_str()),
        ("description", description.as_str()),
        ("author", author.as_str()),
        ("site_title", site_title.as_str()),
        ("website", WEBSITE),
        ("canonical", page.canonical),
        ("year", y.as_str()),
        ("reload", reload.as_str()),
        ("body", page.body.as_str()),
    ];
    proof { assert(names_of(holes_view(h@)) =~= theme_holes(0)); }
    let r = fill_theme(theme, 0, h.as_slice());
    proof {
        let r2 = match live_reload {
            Some(js) => fill_spec(theme.template(1), seq![("js"@, js@)]),
            None => Seq::<char>::empty(),
        };
        assert(holes_view(h@) =~= seq![
            ("title"@, esc_spec(page.title@)),
            ("description"@, esc_spec(page.description@)),
            ("author"@, esc_spec(AUTHOR@)),
            ("site_title"@, esc_spec(TITLE@)),
            ("website"@, WEBSITE@),
            ("canonical"@, page.canonical@),
            ("year"@, signed_decimal(year as int)),
            ("reload"@, r2),
            ("body"@, page.body@),
        ]);
    }
    r
}

/// One post in a list: date, link, title, and where its fragment is.
pub open spec fn post_item_spec(theme: Theme, p: Post) -> Seq<char> {
    fill_spec(
        theme.template(4),
        seq![
            ("date"@, dotted_spec(p.pub_date@)),
            ("url"@, "/blog/"@ + p.slug@ + "/"@),
            ("title"@, esc_spec(p.title@)),
            ("fragment"@, "/blog/"@ + p.slug@ + "/fragment"@),
        ],
    )
}

pub open spec fn post_items_spec(theme: Theme, posts: Seq<Post>) -> Seq<char>
    decreases posts.len(),
{
    if posts.len() == 0 {
        seq![]
    } else {
        post_items_spec(theme, posts.drop_last()) + post_item_spec(theme, posts.last())
    }
}

fn post_item(theme: &Theme, post: &Post) -> (r: String)
    ensures
        r@ == post_item_spec(*theme, *post),
{
    let date = post.pub_date.dotted();
    let url = post_url(post.slug.as_str());
    let title = esc(post.title.as_str());
    let fragment = fragment_url(post.slug.as_str());
    let h: Vec<(&str, &str)> = vec![
        ("date", date.as_str()),
        ("url", url.as_str()),
        ("title", title.as_str()),
        ("fragment", fragment.as_str()),
    ];
    proof { assert(names_of(holes_view(h@)) =~= theme_holes(4)); }
    let r = fill_theme(theme, 4, h.as_slice());
    proof {
        assert(holes_view(h@) =~= seq![
            ("date"@, dotted_spec(post.pub_date@)),
            ("url"@, "/blog/"@ + post.slug@ + "/"@),
            ("title"@, esc_spec(post.title@)),
            ("fragment"@, "/blog/"@ + post.slug@ + "/fragment"@),
        ]);
    }
    r
}

fn post_items(theme: &Theme, posts: &[&Post]) -> (r: String)
    ensures
        r@ == post_items_spec(*theme, derefs(posts@)),
{
    let ghost ps = derefs(posts@);
    let mut out = String::new();
    let mut k: usize = 0;
    while k < posts.len()
        invariant
            k <= posts@.len(),
            ps == derefs(posts@),
            out@ == post_items_spec(*theme, ps.take(k as int)),
        decreases posts@.len() - k,
    {
        let one = post_item(theme, posts[k]);
        push_str(&mut out, one.as_str());
        proof {
            assert(ps.take(k + 1).drop_last() =~= ps.take(k as int));
            assert(ps.take(k + 1).last() == *posts@[k as int]);
        }
        k += 1;
    }
    proof { assert(ps.take(posts@.len() as int) =~= ps); }
    out
}

/// A list page: a link back, a heading, and the items.
pub open spec fn listing_spec(
    theme: Theme,
    back_url: Seq<char>,
    back_label: Seq<char>,
    heading: Seq<char>,
    class: Seq<char>,
    items: Seq<char>,
) -> Seq<char> {
    fill_spec(
        theme.template(3),
        seq![
            ("back_url"@, back_url),
            ("back_label"@, back_label),
            ("heading"@, heading),
            ("class"@, class),
            ("items"@, items),
        ],
    )
}

fn listing(theme: &Theme, back_url: &str, back_label: &str, heading: &str, class: &str, items: &str) -> (r: String)
    ensures
        r@ == listing_spec(*theme, back_url@, back_label@, heading@, class@, items@),
{
    let h: Vec<(&str, &str)> = vec![
        ("back_url", back_url),
        ("back_label", back_label),
        ("heading", heading),
        ("class", class),
        ("items", items),
    ];
    proof { assert(names_of(holes_view(h@)) =~= theme_holes(3)); }
    let r = fill_theme(theme, 3, h.as_slice());
    proof {
        assert(holes_view(h@) =~= seq![
            ("back_url"@, back_url@),
            ("back_label"@, back_label@),
            ("heading"@, heading@),
            ("class"@, class@),
            ("items"@, items@),
        ]);
    }
    r
}

/// One link of the home page: a page of this site is boosted, anything else
/// opens as an outside link.
pub open spec fn link_spec(theme: Theme, name: Seq<char>, href: Seq<char>) -> Seq<char> {
    let boosted = href.len() > 0 && href[0] == '/' && href.last() == '/';
    fill_spec(
        if boosted { theme.template(5) } else { theme.template(6) },
        seq![("href"@, href), ("name"@, name)],
    )
}

fn link(theme: &Theme, name: &str, href: &str) -> (r: String)
    ensures
        r@ == link_spec(*theme, name@, href@),
{
    let h: Vec<(&str, &str)> = vec![("href", href), ("name", name)];
    proof {
        assert(names_of(holes_view(h@)) =~= theme_holes(5));
        assert(holes_view(h@) =~= seq![("href"@, href@), ("name"@, name@)]);
    }
    if boostable(href) {
        fill_theme(theme, 5, h.as_slice())
    } else {
        fill_theme(theme, 6, h.as_slice())
    }
}

/// The links of the home page, in order.
pub open spec fn home_links_spec(theme: Theme) -> Seq<char> {
    link_spec(theme, "github"@, "https://github.com/vitorsouzaalmeida/"@) + link_spec(
        theme,
        "linkedin"@,
        "https://www.linkedin.com/in/vitorsalmeida/"@,
    ) + link_spec(theme, "tags"@, "/tags/"@) + link_spec(theme, "rss"@, "/rss.xml"@)
}

pub open spec fn derefs(posts: Seq<&Post>) -> Seq<Post> {
    posts.map_values(|p: &Post| *p)
}

/// The home page: the site's title, the author's age, the links, and the five
/// most recent posts of `posts` (which come newest first).
pub open spec fn home_spec(theme: Theme, posts: Seq<Post>, year: int) -> Seq<char> {
    let n = if posts.len() < 5 { posts.len() as int } else { 5 };
    fill_spec(
        theme.template(2),
        seq![
            ("title"@, esc_spec(TITLE@)),
            ("age"@, signed_decimal(year - BIRTH_YEAR)),
            ("links"@, home_links_spec(theme)),
            ("posts"@, post_items_spec(theme, posts.take(n))),
        ],
    )
}

fn refs_of<'a>(posts: &'a [Post], n: usize) -> (r: Vec<&'a Post>)
    requires
        n <= posts@.len(),
    ensures
        derefs(r@) == posts@.take(n as int),
{
    let mut out: Vec<&Post> = Vec::new();
    let mut k: usize = 0;
    proof { assert(derefs(out@) =~= posts@.take(0)); }
    while k < n
        invariant
            k <= n <= posts@.len(),
            derefs(out@) == posts@.take(k as int),
        decreases n - k,
    {
        let ghost before = out@;
        out.push(&posts[k]);
        proof {
            assert(derefs(out@) =~= derefs(before).push(posts@[k as int]));
            assert(derefs(out@) =~= posts@.take(k + 1));
        }
        k += 1;
    }
    out
}

pub fn home(theme: &Theme, posts: &[Post], year: i32) -> (r: Page<'static>)
    ensures
        r.view_parts() == (TITLE@, DESCRIPTION@, "/"@, home_spec(*theme, posts@, year as int)),
{
    let n = if posts.len() < 5 { posts.len() } else { 5 };
    let recent = refs_of(posts, n);
    let mut links = String::new();
    let l1 = link(theme, "github", "https://github.com/vitorsouzaalmeida/");
    push_str(&mut links, l1.as_str());
    let l2 = link(theme, "linkedin", "https://www.linkedin.com/in/vitorsalmeida/");
    push_str(&mut links, l2.as_str());
    let l3 = link(theme, "tags", "/tags/");
    push_str(&mut links, l3.as_str());
    let l4 = link(theme, "rss", "/rss.xml");
    push_str(&mut links, l4.as_str());
    let title = esc(TITLE);
    let mut age = String::new();
    push_signed(&mut age, year as i64 - BIRTH_YEAR as i64);
    let items = post_items(theme, recent.as_slice());
    let h: Vec<(&str, &str)> = vec![
        ("title", title.as_str()),
        ("age", age.as_str()),
        ("links", links.as_str()),
        ("posts", items.as_str()),
    ];
    proof { assert(names_of(holes_view(h@)) =~= theme_holes(2)); }
    let body = fill_theme(theme, 2, h.as_slice());
    proof {
        assert(holes_view(h@) =~= seq![
            ("title"@, esc_spec(TITLE@)),
            ("age"@, signed_decimal(year - BIRTH_YEAR)),
            ("links"@, home_links_spec(*theme)),
            ("posts"@, post_items_spec(*theme, posts@.take(n as int))),
        ]);
    }
    Page { title: TITLE, description: DESCRIPTION, canonical: "/", body }
}

/// Every post, newest first as given.
pub fn blog_index(theme: &Theme, posts: &[Post]) -> (r: Page<'static>)
    ensures
        r.view_parts() == ("posts | vitor s. almeida"@, DESCRIPTION@, "/blog/"@, listing_spec(
            *theme,
            "/"@,
            esc_spec(AUTHOR@),
            "all posts"@,
            "posts"@,
            post_items_spec(*theme, posts@),
        )),
{
    let all = refs_of(posts, posts.len());
    proof { assert(posts@.take(posts@.len() as int) =~= posts@); }
    let items = post_items(theme, all.as_slice());
    let author = esc(AUTHOR);
    let body = listing(theme, "/", author.as_str(), "all posts", "posts", items.as_str());
    Page { title: "posts | vitor s. almeida", description: DESCRIPTION, canonical: "/blog/", body }
}

/// A post's tags, each linked to its page.
pub open spec fn tag_links_spec(theme: Theme, tags: Seq<Seq<char>>) -> Seq<char>
    decreases tags.len(),
{
    if tags.len() == 0 {
        seq![]
    } else {
        tag_links_spec(theme, tags.drop_last()) + fill_spec(
            theme.template(8),
            seq![("url"@, tag_url_spec(tags.last())), ("name"@, esc_spec(tags.last()))],
        )
    }
}

/// A post's article: title, date, tags, subtitle if it has one, and its HTML.
pub open spec fn article_spec(theme: Theme, p: Post) -> Seq<char> {
    let subtitle = match p.subtitle {
        Some(t) => fill_spec(theme.template(9), seq![("text"@, esc_spec(t@))]),
        None => seq![],
    };
    fill_spec(
        theme.template(7),
        seq![
            ("title"@, esc_spec(p.title@)),
            ("date"@, dotted_spec(p.pub_date@)),
            ("tags"@, tag_links_spec(theme, crate::xml::strings_view(p.tags@))),
            ("subtitle"@, subtitle),
            ("html"@, p.html@),
        ],
    )
}

fn article(theme: &Theme, post: &Post) -> (r: String)
    ensures
        r@ == article_spec(*theme, *post),
{
    let ghost tv = crate::xml::strings_view(post.tags@);
    let mut tags = String::new();
    let mut k: usize = 0;
    while k < post.tags.len()
        invariant
            k <= post.tags@.len(),
            tv == crate::xml::strings_view(post.tags@),
            tags@ == tag_links_spec(*theme, tv.take(k as int)),
        decreases post.tags@.len() - k,
    {
        let tag = post.tags[k].as_str();
        let url = tag_url(tag);
        let name = esc(tag);
        let h: Vec<(&str, &str)> = vec![("url", url.as_str()), ("name", name.as_str())];
        proof { assert(names_of(holes_view(h@)) =~= theme_holes(8)); }
        let one = fill_theme(theme, 8, h.as_slice());
        push_str(&mut tags, one.as_str());
        proof {
            assert(tv.take(k + 1).drop_last() =~= tv.take(k as int));
            assert(holes_view(h@) =~= seq![("url"@, tag_url_spec(tv[k as int])), ("name"@, esc_spec(tv[k as int]))]);
        }
        k += 1;
    }
    proof { assert(tv.take(post.tags@.len() as int) =~= tv); }
    let subtitle = match &post.subtitle {
        Some(t) => {
            let text = esc(t.as_str());
            let h: Vec<(&str, &str)> = vec![("text", text.as_str())];
            proof { assert(names_of(holes_view(h@)) =~= theme_holes(9)); }
            let r = fill_theme(theme, 9, h.as_slice());
            proof { assert(holes_view(h@) =~= seq![("text"@, esc_spec(t@))]); }
            r
        },
        None => String::new(),
    };
    let title = esc(post.title.as_str());
    let date = post.pub_date.dotted();
    let h: Vec<(&str, &str)> = vec![
        ("title", title.as_str()),
        ("date", date.as_str()),
        ("tags", tags.as_str()),
        ("subtitle", subtitle.as_str()),
        ("html", post.html.as_str()),
    ];
    proof { assert(names_of(holes_view(h@)) =~= theme_holes(7)); }
    let r = fill_theme(theme, 7, h.as_slice());
    proof {
        let st = if post.subtitle is Some {
            fill_spec(theme.template(9), seq![("text"@, esc_spec(post.subtitle->Some_0@))])
        } else {
            Seq::<char>::empty()
        };
        assert(holes_view(h@) =~= seq![
            ("title"@, esc_spec(post.title@)),
            ("date"@, dotted_spec(post.pub_date@)),
            ("tags"@, tag_links_spec(*theme, tv)),
            ("subtitle"@, st),
            ("html"@, post.html@),
        ]);
    }
    r
}

/// A post's own page, at `canonical`.
pub fn post_page<'a>(theme: &Theme, post: &'a Post, canonical: &'a str) -> (r: Page<'a>)
    ensures
        r.view_parts() == (post.title@, match post.description {
            Some(d) => d@,
            None => match post.subtitle {
                Some(t) => t@,
                None => DESCRIPTION@,
            },
        }, canonical@, fill_spec(
            theme.template(10),
            seq![("author"@, esc_spec(AUTHOR@)), ("article"@, article_spec(*theme, *post))],
        )),
{
    let description = match post.summary() {
        Some(s) => s,
        None => DESCRIPTION,
    };
    let author = esc(AUTHOR);
    let a = article(theme, post);
    let h: Vec<(&str, &str)> = vec![("author", author.as_str()), ("article", a.as_str())];
    proof { assert(names_of(holes_view(h@)) =~= theme_holes(10)); }
    let body = fill_theme(theme, 10, h.as_slice());
    proof {
        assert(holes_view(h@) =~= seq![("author"@, esc_spec(AUTHOR@)), ("article"@, article_spec(*theme, *post))]);
    }
    Page { title: post.title.as_str(), description, canonical, body }
}

/// A post's article alone, for loading into a page that is already open.
pub fn post_fragment(theme: &Theme, post: &Post) -> (r: String)
    ensures
        r@ == article_spec(*theme, *post),
{
    article(theme, post)
}

pub open spec fn tag_items_spec(theme: Theme, tags: Seq<(&str, usize)>) -> Seq<char>
    decreases tags.len(),
{
    if tags.len() == 0 {
        seq![]
    } else {
        tag_items_spec(theme, tags.drop_last()) + fill_spec(
            theme.template(11),
            seq![
                ("url"@, tag_url_spec(tags.last().0@)),
                ("name"@, esc_spec(tags.last().0@)),
                ("count"@, decimal(tags.last().1 as nat)),
            ],
        )
    }
}

/// Every tag with its count, in the order given.
pub fn tags_index(theme: &Theme, tags: &[(&str, usize)]) -> (r: Page<'static>)
    ensures
        r.view_parts() == ("tags | vitor s. almeida"@, DESCRIPTION@, "/tags/"@, listing_spec(
            *theme,
            "/"@,
            esc_spec(AUTHOR@),
            "tags"@,
            "links"@,
            tag_items_spec(*theme, tags@),
        )),
{
    let mut items = String::new();
    let mut k: usize = 0;
    while k < tags.len()
        invariant
            k <= tags@.len(),
            items@ == tag_items_spec(*theme, tags@.take(k as int)),
        decreases tags@.len() - k,
    {
        let (tag, count) = tags[k];
        let url = tag_url(tag);
        let name = esc(tag);
        let mut c = String::new();
        push_decimal(&mut c, count as u64);
        let h: Vec<(&str, &str)> = vec![("url", url.as_str()), ("name", name.as_str()), ("count", c.as_str())];
        proof { assert(names_of(holes_view(h@)) =~= theme_holes(11)); }
        let one = fill_theme(theme, 11, h.as_slice());
        push_str(&mut items, one.as_str());
        proof {
            assert(tags@.take(k + 1).drop_last() =~= tags@.take(k as int));
            assert(holes_view(h@) =~= seq![
                ("url"@, tag_url_spec(tag@)),
                ("name"@, esc_spec(tag@)),
                ("count"@, decimal(count as nat)),
            ]);
        }
        k += 1;
    }
    proof { assert(tags@.take(tags@.len() as int) =~= tags@); }
    let author = esc(AUTHOR);
    let body = listing(theme, "/", author.as_str(), "tags", "links", items.as_str());
    Page { title: "tags | vitor s. almeida", description: DESCRIPTION, canonical: "/tags/", body }
}

/// A tag's page: its posts as given, under `#tag`.
pub fn tag_page<'a>(theme: &Theme, tag: &'a str, posts: &[&Post], canonical: &'a str) -> (r: Page<'a>)
    ensures
        r.view_parts() == (tag@, DESCRIPTION@, canonical@, listing_spec(
            *theme,
            "/tags/"@,
            "tags"@,
            "#"@ + esc_spec(tag@),
            "posts"@,
            post_items_spec(*theme, derefs(posts@)),
        )),
{
    let mut heading = String::new();
    push_str(&mut heading, "#");
    let e = esc(tag);
    push_str(&mut heading, e.as_str());
    let items = post_items(theme, posts);
    let body = listing(theme, "/tags/", "tags", heading.as_str(), "posts", items.as_str());
    Page { title: tag, description: DESCRIPTION, canonical, body }
}

} // verus!
