//! URLs in the model: every URL is built from the route that emits it, so a
//! link cannot point somewhere the build did not write.
use vstd::prelude::*;

use crate::config::{AUTHOR, BIRTH_YEAR, DESCRIPTION, TITLE, WEBSITE};
use crate::content::{
    all_tags, count_before, count_in, count_view, opt_view, tag_counts, Post,
};
use crate::date::before;
use crate::fill::Value;
use crate::routes::{canonical, canonical_spec, param_of, param_spec};
use crate::text::{chars_of, push_char, push_str, str_eq};
use crate::xml::{replace_all, replace_from, strings_view};
use crate::Ctx;
use vstd::utf8::encode_utf8;

verus! {

/// An uppercase hexadecimal digit.
pub open spec fn hex_upper(n: nat) -> char {
    if n < 10 {
        ('0' as u32 + n) as char
    } else {
        ('A' as u32 + n - 10) as char
    }
}

/// What one byte of a tag becomes in its slug: itself if it is an ASCII letter,
/// digit, `-` or `_`, else `%XX`.
pub open spec fn slug_byte(b: u8) -> Seq<char> {
    if (48 <= b <= 57) || (65 <= b <= 90) || (97 <= b <= 122) || b == 45 || b == 95 {
        seq![b as char]
    } else {
        seq!['%', hex_upper((b / 16) as nat), hex_upper((b % 16) as nat)]
    }
}

pub open spec fn slug_spec(bytes: Seq<u8>) -> Seq<char>
    decreases bytes.len(),
{
    if bytes.len() == 0 {
        seq![]
    } else {
        slug_spec(bytes.drop_last()) + slug_byte(bytes.last())
    }
}

/// The value of a hexadecimal digit as `hex_upper` writes it.
pub open spec fn hex_value(c: char) -> int {
    if '0' <= c && c <= '9' {
        c as int - '0' as int
    } else {
        c as int - 'A' as int + 10
    }
}

/// The bytes a slug stands for: `%XX` is the byte `XX`, any other character
/// the byte of its code.
pub open spec fn pct_decode(t: Seq<char>) -> Seq<u8>
    decreases t.len(),
{
    if t.len() == 0 {
        seq![]
    } else if t[0] == '%' && t.len() >= 3 {
        seq![(hex_value(t[1]) * 16 + hex_value(t[2])) as u8] + pct_decode(t.skip(3))
    } else {
        seq![t[0] as u8] + pct_decode(t.skip(1))
    }
}

proof fn lemma_slug_front(b: Seq<u8>)
    requires
        b.len() > 0,
    ensures
        slug_spec(b) == slug_byte(b[0]) + slug_spec(b.drop_first()),
    decreases b.len(),
{
    if b.len() == 1 {
        assert(b.drop_last() =~= Seq::<u8>::empty());
        assert(b.drop_first() =~= Seq::<u8>::empty());
        assert(slug_spec(Seq::<u8>::empty()) == Seq::<char>::empty());
    } else {
        lemma_slug_front(b.drop_last());
        assert(b.drop_last().drop_first() =~= b.drop_first().drop_last());
        assert(b.drop_first().last() == b.last());
        assert(b.drop_last()[0] == b[0]);
    }
}

proof fn lemma_decode_byte(x: u8, rest: Seq<char>)
    ensures
        pct_decode(slug_byte(x) + rest) == seq![x] + pct_decode(rest),
{
    let w = slug_byte(x);
    let t = w + rest;
    assert(t.skip(w.len() as int) =~= rest);
    assert forall|k: int| 0 <= k < w.len() implies t[k] == w[k] by {}
    if w.len() == 1 {
        assert(t[0] == x as char);
        assert((x as char) as u8 == x);
    } else {
        let hi = x / 16;
        let lo = x % 16;
        assert(hex_value(hex_upper(hi as nat)) == hi);
        assert(hex_value(hex_upper(lo as nat)) == lo);
        assert(hi * 16 + lo == x);
    }
}

/// A tag's slug stands for the tag: percent-decoding it gives back the tag's
/// UTF-8 bytes, so two tags never share a page.
pub proof fn lemma_slug_decodes(bytes: Seq<u8>)
    ensures
        pct_decode(slug_spec(bytes)) == bytes,
    decreases bytes.len(),
{
    if bytes.len() == 0 {
        assert(slug_spec(bytes) == Seq::<char>::empty());
    } else {
        lemma_slug_front(bytes);
        lemma_slug_decodes(bytes.drop_first());
        lemma_decode_byte(bytes[0], slug_spec(bytes.drop_first()));
        assert(seq![bytes[0]] + bytes.drop_first() =~= bytes);
    }
}

fn hex_char(n: u8) -> (r: char)
    requires
        n < 16,
    ensures
        r == hex_upper(n as nat),
{
    if n < 10 {
        let c = (48u8 + n) as char;
        assert(c == hex_upper(n as nat)) by {
            assert(('0' as u32 + n) == (48 + n) as u32);
        }
        c
    } else {
        let c = (55u8 + n) as char;
        assert(c == hex_upper(n as nat)) by {
            assert(('A' as u32 + n - 10) == (55 + n) as u32);
        }
        c
    }
}

/// Percent-encoded, because a tag is prose: `c++` becomes `c%2B%2B`.
pub fn tag_slug(tag: &str) -> (r: String)
    ensures
        r@ == slug_spec(encode_utf8(tag@)),
{
    let bytes = tag.as_bytes();
    let mut out = String::new();
    let mut k: usize = 0;
    while k < bytes.len()
        invariant
            k <= bytes@.len(),
            bytes@ == encode_utf8(tag@),
            out@ == slug_spec(bytes@.subrange(0, k as int)),
        decreases bytes@.len() - k,
    {
        let b = bytes[k];
        if (48 <= b && b <= 57) || (65 <= b && b <= 90) || (97 <= b && b <= 122) || b == 45 || b == 95 {
            push_char(&mut out, b as char);
        } else {
            push_char(&mut out, '%');
            push_char(&mut out, hex_char(b / 16));
            push_char(&mut out, hex_char(b % 16));
        }
        assert(bytes@.subrange(0, k + 1).drop_last() =~= bytes@.subrange(0, k as int));
        k += 1;
    }
    assert(bytes@.subrange(0, bytes@.len() as int) =~= bytes@);
    out
}

/// A route pattern: an output path and the item field its `[segment]` names.
pub type PatternSpec = (Seq<char>, Seq<char>);

/// The first route among `routes[k..]` for `collection`.
pub open spec fn route_for(routes: Seq<(&str, &str)>, collection: Seq<char>, k: int) -> Option<Seq<char>>
    decreases routes.len() - k,
{
    if !(0 <= k < routes.len()) {
        None
    } else if routes[k].0@ == collection {
        Some(routes[k].1@)
    } else {
        route_for(routes, collection, k + 1)
    }
}

pub open spec fn pattern_spec(routes: Seq<(&str, &str)>, collection: Seq<char>) -> Result<PatternSpec, Seq<char>> {
    match route_for(routes, collection, 0) {
        None => Err("no page declares `each: "@ + collection + "`"@),
        Some(out) => match param_spec(out) {
            None => Err(out + ": `each: "@ + collection + "` needs a [field] path segment"@),
            Some(param) => Ok((out, param)),
        },
    }
}

/// The URL path of the page the pattern emits for `value`.
pub open spec fn path_spec(p: PatternSpec, value: Seq<char>) -> Seq<char> {
    canonical_spec(replace_from(p.0, 0, "["@ + p.1 + "]"@, value))
}

fn pattern<'a>(routes: &[(&'a str, &'a str)], collection: &str) -> (r: Result<(&'a str, &'a str), String>)
    ensures
        match r {
            Ok((out, param)) => pattern_spec(routes@, collection@) == Ok::<PatternSpec, Seq<char>>((out@, param@)),
            Err(e) => pattern_spec(routes@, collection@) == Err::<PatternSpec, Seq<char>>(e@),
        },
{
    let mut k: usize = 0;
    while k < routes.len()
        invariant
            k <= routes@.len(),
            route_for(routes@, collection@, 0) == route_for(routes@, collection@, k as int),
        decreases routes@.len() - k,
    {
        if str_eq(routes[k].0, collection) {
            let out = routes[k].1;
            return match param_of(out) {
                Some(param) => Ok((out, param)),
                None => {
                    let mut e = String::new();
                    push_str(&mut e, out);
                    push_str(&mut e, ": `each: ");
                    push_str(&mut e, collection);
                    push_str(&mut e, "` needs a [field] path segment");
                    Err(e)
                },
            };
        }
        k += 1;
    }
    let mut e = String::new();
    push_str(&mut e, "no page declares `each: ");
    push_str(&mut e, collection);
    push_str(&mut e, "`");
    Err(e)
}

fn path(p: (&str, &str), value: &str) -> (r: String)
    ensures
        r@ == path_spec((p.0@, p.1@), value@),
{
    let mut pat = String::new();
    push_str(&mut pat, "[");
    push_str(&mut pat, p.1);
    push_str(&mut pat, "]");
    proof { reveal_strlit("["); }
    let pc = chars_of(pat.as_str());
    let oc = chars_of(p.0);
    let filled = replace_all(&oc, &pc, value);
    canonical(filled.as_str())
}

/// The URL of one item, for a caller outside the model -- the build writes an
/// OG image next to the page it belongs to.
pub fn url_of(routes: &[(&str, &str)], collection: &str, slug: &str) -> (r: Result<String, String>)
    ensures
        match (r, pattern_spec(routes@, collection@)) {
            (Ok(u), Ok(p)) => u@ == path_spec(p, slug@),
            (Err(e), Err(m)) => e@ == m,
            _ => false,
        },
{
    match pattern(routes, collection) {
        Err(e) => Err(e),
        Ok(p) => Ok(path(p, slug)),
    }
}

/// A post's social image sits next to the page it belongs to.
pub fn og_image(post_url: &str) -> (r: String)
    ensures
        r@ == post_url@ + "/og.png"@,
{
    let mut out = String::new();
    push_str(&mut out, post_url);
    push_str(&mut out, "/og.png");
    out
}

// -- The site value -----------------------------------------------------------

pub open spec fn is_text(v: Value, s: Seq<char>) -> bool {
    v matches Value::Text(t) && t@ == s
}

pub open spec fn is_html(v: Value, s: Seq<char>) -> bool {
    v matches Value::Html(t) && t@ == s
}

/// An optional text: `Nil` when it is absent.
pub open spec fn is_opt(v: Value, o: Option<Seq<char>>) -> bool {
    match o {
        None => v == Value::Nil,
        Some(s) => is_text(v, s),
    }
}

/// The entries of a map, or nothing for anything else.
pub open spec fn entries(v: Value) -> Seq<(&str, Value)> {
    match v {
        Value::Dict(es) => es@,
        _ => seq![],
    }
}

/// The items of a list, or nothing for anything else.
pub open spec fn items(v: Value) -> Seq<Value> {
    match v {
        Value::List(vs) => vs@,
        _ => seq![],
    }
}

/// Where the posts' pages go, and where the tags' pages go.
pub type Where = (PatternSpec, PatternSpec);

/// A post's description, else its subtitle, else the site's.
pub open spec fn description_of(p: Post) -> Seq<char> {
    match p.description {
        Some(d) => d@,
        None => match p.subtitle {
            Some(t) => t@,
            None => DESCRIPTION@,
        },
    }
}

/// The page of a tag.
pub open spec fn tag_url_spec(at: Where, tag: Seq<char>) -> Seq<char> {
    path_spec(at.1, slug_spec(encode_utf8(tag)))
}

/// A tag on a post: where its page is, and its name.
pub open spec fn tag_link_ok(v: Value, tag: Seq<char>, at: Where) -> bool {
    &&& v is Dict
    &&& entries(v).len() == 2
    &&& entries(v)[0].0@ == "url"@ && is_text(entries(v)[0].1, tag_url_spec(at, tag))
    &&& entries(v)[1].0@ == "name"@ && is_text(entries(v)[1].1, tag)
}

/// What a template sees of a post.
pub open spec fn post_item_ok(v: Value, p: Post, at: Where) -> bool {
    let url = path_spec(at.0, p.slug@);
    let es = entries(v);
    let d = p.pub_date@;
    &&& v is Dict
    &&& es.len() == 9
    &&& es[0].0@ == "slug"@ && is_text(es[0].1, p.slug@)
    &&& es[1].0@ == "title"@ && is_text(es[1].1, p.title@)
    &&& es[2].0@ == "subtitle"@ && is_opt(es[2].1, opt_view(p.subtitle))
    &&& es[3].0@ == "date"@ && is_text(
        es[3].1,
        crate::date::year_text(d.0) + " · "@ + crate::text::padded(d.1 as nat, 2) + " · "@
            + crate::text::padded(d.2 as nat, 2),
    )
    &&& es[4].0@ == "description"@ && is_text(es[4].1, description_of(p))
    &&& es[5].0@ == "image"@ && is_text(es[5].1, WEBSITE@ + url + "/og.png"@)
    &&& es[6].0@ == "tags"@ && es[6].1 is List && items(es[6].1).len() == p.tags@.len()
        && forall|i: int| 0 <= i < p.tags@.len() ==> tag_link_ok(#[trigger] items(es[6].1)[i], p.tags@[i]@, at)
    &&& es[7].0@ == "html"@ && is_html(es[7].1, p.html@)
    &&& es[8].0@ == "url"@ && is_text(es[8].1, url)
}

/// One item per post, in order.
pub open spec fn items_ok(vs: Seq<Value>, ps: Seq<Post>, at: Where) -> bool {
    vs.len() == ps.len() && forall|i: int| 0 <= i < ps.len() ==> post_item_ok(#[trigger] vs[i], ps[i], at)
}

/// Where `x` goes among `s[i..]` newest first: before the first older post.
pub open spec fn date_pos(s: Seq<Post>, x: Post, i: int) -> int
    decreases s.len() - i,
{
    if i < 0 || i >= s.len() {
        s.len() as int
    } else if before(s[i].pub_date@, x.pub_date@) {
        i
    } else {
        date_pos(s, x, i + 1)
    }
}

/// `s` newest first; posts of one day keep their order.
pub open spec fn by_date(s: Seq<Post>) -> Seq<Post>
    decreases s.len(),
{
    if s.len() == 0 {
        seq![]
    } else {
        let r = by_date(s.drop_last());
        r.insert(date_pos(r, s.last(), 0), s.last())
    }
}

/// The posts that carry `tag`, in order.
pub open spec fn tagged(ps: Seq<Post>, tag: Seq<char>) -> Seq<Post>
    decreases ps.len(),
{
    if ps.len() == 0 {
        seq![]
    } else if strings_view(ps.last().tags@).contains(tag) {
        tagged(ps.drop_last(), tag).push(ps.last())
    } else {
        tagged(ps.drop_last(), tag)
    }
}

/// A tag's name, read back from its item.
pub open spec fn tag_name(v: Value) -> Seq<char> {
    match entries(v)[2].1 {
        Value::Text(t) => t@,
        _ => seq![],
    }
}

/// A tag's name with how many posts carry it.
pub open spec fn tag_count(posts: Seq<Post>, v: Value) -> (Seq<char>, nat) {
    (tag_name(v), count_in(all_tags(posts), tag_name(v)))
}

/// What a template sees of a tag: its page, slug, name, count, and its own
/// posts newest first.
pub open spec fn tag_item_ok(v: Value, posts: Seq<Post>, at: Where) -> bool {
    let es = entries(v);
    let tag = tag_name(v);
    &&& v is Dict
    &&& es.len() == 5
    &&& es[0].0@ == "url"@ && is_text(es[0].1, tag_url_spec(at, tag))
    &&& es[1].0@ == "slug"@ && is_text(es[1].1, slug_spec(encode_utf8(tag)))
    &&& es[2].0@ == "name"@ && es[2].1 is Text
    &&& es[3].0@ == "count"@ && es[3].1 == Value::Num(count_in(all_tags(posts), tag) as i64)
    &&& es[4].0@ == "posts"@ && es[4].1 is List && items_ok(items(es[4].1), by_date(tagged(posts, tag)), at)
}

/// The tags, each with its count, most used first and ties by name.
pub open spec fn tags_ok(vs: Seq<Value>, posts: Seq<Post>, at: Where) -> bool {
    &&& forall|i: int| 0 <= i < vs.len() ==> tag_item_ok(#[trigger] vs[i], posts, at)
    &&& forall|t: Seq<char>| all_tags(posts).contains(t) <==> exists|i: int| 0 <= i < vs.len() && tag_name(#[trigger] vs[i]) == t
    &&& forall|i: int, j: int| 0 <= i < j < vs.len() ==> count_before(tag_count(posts, #[trigger] vs[i]), tag_count(posts, #[trigger] vs[j]))
}

/// The whole site as templates see it.
pub open spec fn site_ok(v: Value, posts: Seq<Post>, css: Seq<char>, ctx: Ctx, at: Where) -> bool {
    let es = entries(v);
    let sorted = by_date(posts);
    &&& v is Dict
    &&& es.len() == 11
    &&& es[0].0@ == "site_title"@ && is_text(es[0].1, TITLE@)
    &&& es[1].0@ == "author"@ && is_text(es[1].1, AUTHOR@)
    &&& es[2].0@ == "description"@ && is_text(es[2].1, DESCRIPTION@)
    &&& es[3].0@ == "image"@ && is_text(es[3].1, WEBSITE@ + "/og_default.jpg"@)
    &&& es[4].0@ == "year"@ && es[4].1 == Value::Num(ctx.year as i64)
    &&& es[5].0@ == "age"@ && es[5].1 == Value::Num((ctx.year - BIRTH_YEAR) as i64)
    &&& es[6].0@ == "css"@ && is_html(es[6].1, css)
    &&& es[7].0@ == "live_reload"@ && (if ctx.live_reload {
        is_html(
            es[7].1,
            "(function(){try{new EventSource('/__livereload').onmessage=function(){location.reload()}}catch(e){}})();"@,
        )
    } else {
        es[7].1 == Value::Nil
    })
    &&& es[8].0@ == "recent"@ && es[8].1 is List && items_ok(
        items(es[8].1),
        sorted.take(if sorted.len() < 5 { sorted.len() as int } else { 5 }),
        at,
    )
    &&& es[9].0@ == "tags"@ && es[9].1 is List && tags_ok(items(es[9].1), posts, at)
    &&& es[10].0@ == "posts"@ && es[10].1 is List && items_ok(items(es[10].1), sorted, at)
}

fn text_entry<'a>(es: &mut Vec<(&'a str, Value<'a>)>, key: &'a str, s: &str)
    ensures
        final(es)@.len() == old(es)@.len() + 1,
        forall|i: int| 0 <= i < old(es)@.len() ==> final(es)@[i] == old(es)@[i],
        final(es)@.last().0 == key,
        is_text(final(es)@.last().1, s@),
{
    es.push((key, Value::text(s)));
}

fn post_item<'a>(post: &Post, posts_at: (&str, &str), tags_at: (&str, &str)) -> (r: Value<'a>)
    ensures
        post_item_ok(r, *post, ((posts_at.0@, posts_at.1@), (tags_at.0@, tags_at.1@))),
{
    let ghost at: Where = ((posts_at.0@, posts_at.1@), (tags_at.0@, tags_at.1@));
    let url = path(posts_at, post.slug.as_str());
    let mut links: Vec<Value<'a>> = Vec::new();
    let mut i: usize = 0;
    while i < post.tags.len()
        invariant
            i <= post.tags@.len(),
            at == ((posts_at.0@, posts_at.1@), (tags_at.0@, tags_at.1@)),
            links@.len() == i,
            forall|k: int| 0 <= k < i ==> tag_link_ok(#[trigger] links@[k], post.tags@[k]@, at),
        decreases post.tags@.len() - i,
    {
        let tag = post.tags[i].as_str();
        let slug = tag_slug(tag);
        let u = path(tags_at, slug.as_str());
        let mut link: Vec<(&'a str, Value<'a>)> = Vec::new();
        text_entry(&mut link, "url", u.as_str());
        text_entry(&mut link, "name", tag);
        links.push(Value::map(link));
        proof { reveal_strlit("url"); reveal_strlit("name"); }
        i += 1;
    }
    let description = match post.summary() {
        Some(s) => s,
        None => DESCRIPTION,
    };
    let mut image = String::new();
    push_str(&mut image, WEBSITE);
    let og = og_image(url.as_str());
    push_str(&mut image, og.as_str());
    assert(image@ =~= WEBSITE@ + url@ + "/og.png"@);
    let date = post.pub_date.dotted();
    let subtitle = match &post.subtitle {
        Some(t) => Some(t.as_str()),
        None => None,
    };
    let mut es: Vec<(&'a str, Value<'a>)> = Vec::new();
    text_entry(&mut es, "slug", post.slug.as_str());
    text_entry(&mut es, "title", post.title.as_str());
    es.push(("subtitle", Value::opt(subtitle)));
    text_entry(&mut es, "date", date.as_str());
    text_entry(&mut es, "description", description);
    text_entry(&mut es, "image", image.as_str());
    es.push(("tags", Value::list(links)));
    es.push(("html", Value::html(post.html.as_str())));
    text_entry(&mut es, "url", url.as_str());
    proof {
        reveal_strlit("slug");
        reveal_strlit("title");
        reveal_strlit("subtitle");
        reveal_strlit("date");
        reveal_strlit("description");
        reveal_strlit("image");
        reveal_strlit("tags");
        reveal_strlit("html");
        reveal_strlit("url");
    }
    Value::map(es)
}

pub open spec fn derefs(v: Seq<&Post>) -> Seq<Post> {
    v.map_values(|p: &Post| *p)
}

/// The posts newest first; posts of one day keep their order.
fn newest_first<'a>(posts: Vec<&'a Post>) -> (r: Vec<&'a Post>)
    ensures
        derefs(r@) == by_date(derefs(posts@)),
{
    let ghost orig = derefs(posts@);
    let mut out: Vec<&'a Post> = Vec::new();
    let mut i: usize = 0;
    proof { assert(derefs(out@) =~= by_date(orig.take(0))); }
    while i < posts.len()
        invariant
            i <= posts@.len(),
            orig == derefs(posts@),
            derefs(out@) == by_date(orig.take(i as int)),
        decreases posts@.len() - i,
    {
        let p = posts[i];
        let mut k: usize = 0;
        while k < out.len() && !(out[k].pub_date < p.pub_date)
            invariant
                k <= out@.len(),
                date_pos(derefs(out@), *p, 0) == date_pos(derefs(out@), *p, k as int),
            decreases out@.len() - k,
        {
            k += 1;
        }
        let ghost old_out = out@;
        out.insert(k, p);
        proof {
            assert(orig.take(i + 1).drop_last() =~= orig.take(i as int));
            assert(orig.take(i + 1).last() == *p);
            assert(derefs(out@) =~= derefs(old_out).insert(k as int, *p));
        }
        i += 1;
    }
    proof { assert(orig.take(posts@.len() as int) =~= orig); }
    out
}

/// Whether the post carries `tag`.
pub(crate) fn carries(p: &Post, tag: &str) -> (r: bool)
    ensures
        r == strings_view(p.tags@).contains(tag@),
{
    let mut i: usize = 0;
    while i < p.tags.len()
        invariant
            i <= p.tags@.len(),
            forall|k: int| 0 <= k < i ==> p.tags@[k]@ != tag@,
        decreases p.tags@.len() - i,
    {
        if str_eq(p.tags[i].as_str(), tag) {
            assert(strings_view(p.tags@)[i as int] == tag@);
            return true;
        }
        i += 1;
    }
    proof {
        if strings_view(p.tags@).contains(tag@) {
            let w = choose|w: int| 0 <= w < strings_view(p.tags@).len() && strings_view(p.tags@)[w] == tag@;
            assert(p.tags@[w]@ == tag@);
        }
    }
    false
}

/// The posts, newest first, as template items.
fn post_items<'a>(sorted: &Vec<&Post>, n: usize, posts_at: (&str, &str), tags_at: (&str, &str)) -> (r: Vec<Value<'a>>)
    requires
        n <= sorted@.len(),
    ensures
        items_ok(r@, derefs(sorted@).take(n as int), ((posts_at.0@, posts_at.1@), (tags_at.0@, tags_at.1@))),
{
    let ghost at: Where = ((posts_at.0@, posts_at.1@), (tags_at.0@, tags_at.1@));
    let mut out: Vec<Value<'a>> = Vec::new();
    let mut i: usize = 0;
    while i < n
        invariant
            i <= n <= sorted@.len(),
            at == ((posts_at.0@, posts_at.1@), (tags_at.0@, tags_at.1@)),
            out@.len() == i,
            forall|k: int| 0 <= k < i ==> post_item_ok(#[trigger] out@[k], *sorted@[k], at),
        decreases n - i,
    {
        out.push(post_item(sorted[i], posts_at, tags_at));
        i += 1;
    }
    out
}

fn tag_item<'a>(tag: &str, count: usize, posts: &[Post], posts_at: (&str, &str), tags_at: (&str, &str)) -> (r: Value<'a>)
    requires
        count == count_in(all_tags(posts@), tag@),
    ensures
        tag_item_ok(r, posts@, ((posts_at.0@, posts_at.1@), (tags_at.0@, tags_at.1@))),
        tag_name(r) == tag@,
{
    let ghost at: Where = ((posts_at.0@, posts_at.1@), (tags_at.0@, tags_at.1@));
    let slug = tag_slug(tag);
    let url = path(tags_at, slug.as_str());
    let mut with_tag: Vec<&Post> = Vec::new();
    let mut i: usize = 0;
    proof { assert(derefs(with_tag@) =~= tagged(posts@.take(0), tag@)); }
    while i < posts.len()
        invariant
            i <= posts@.len(),
            derefs(with_tag@) == tagged(posts@.take(i as int), tag@),
        decreases posts@.len() - i,
    {
        let ghost before = with_tag@;
        if carries(&posts[i], tag) {
            with_tag.push(&posts[i]);
        }
        proof {
            assert(posts@.take(i + 1).drop_last() =~= posts@.take(i as int));
            assert(derefs(with_tag@) =~= tagged(posts@.take(i + 1), tag@));
        }
        i += 1;
    }
    proof { assert(posts@.take(posts@.len() as int) =~= posts@); }
    let sorted = newest_first(with_tag);
    let list = post_items(&sorted, sorted.len(), posts_at, tags_at);
    proof { assert(derefs(sorted@).take(sorted@.len() as int) =~= derefs(sorted@)); }
    let mut es: Vec<(&'a str, Value<'a>)> = Vec::new();
    text_entry(&mut es, "url", url.as_str());
    text_entry(&mut es, "slug", slug.as_str());
    text_entry(&mut es, "name", tag);
    es.push(("count", Value::num(count)));
    es.push(("posts", Value::list(list)));
    Value::map(es)
}

/// The one value every page is rendered against: the site's facts, every
/// post newest first, the five most recent, and every tag with its own posts.
/// Each URL comes from the route of the collection that emits the page, so a
/// collection without a route is an error, not a dead link.
pub fn build<'a>(posts: &[Post], css: &str, ctx: Ctx, routes: &[(&str, &str)]) -> (r: Result<Value<'a>, String>)
    requires
        all_tags(posts@).len() <= usize::MAX,
    ensures
        match (r, pattern_spec(routes@, "posts"@), pattern_spec(routes@, "tags"@)) {
            (Err(e), Err(m), _) => e@ == m,
            (Err(e), Ok(_), Err(m)) => e@ == m,
            (Ok(v), Ok(pp), Ok(tp)) => site_ok(v, posts@, css@, ctx, (pp, tp)),
            _ => false,
        },
{
    proof { reveal_strlit("posts"); reveal_strlit("tags"); }
    let posts_at = match pattern(routes, "posts") {
        Ok(p) => p,
        Err(e) => return Err(e),
    };
    let tags_at = match pattern(routes, "tags") {
        Ok(p) => p,
        Err(e) => return Err(e),
    };
    let ghost at: Where = ((posts_at.0@, posts_at.1@), (tags_at.0@, tags_at.1@));
    let mut all: Vec<&Post> = Vec::new();
    let mut i: usize = 0;
    while i < posts.len()
        invariant
            i <= posts@.len(),
            derefs(all@) == posts@.take(i as int),
        decreases posts@.len() - i,
    {
        let ghost before = all@;
        all.push(&posts[i]);
        proof {
            assert(derefs(all@) =~= derefs(before).push(posts@[i as int]));
            assert(derefs(all@) =~= posts@.take(i + 1));
        }
        i += 1;
    }
    proof { assert(posts@.take(posts@.len() as int) =~= posts@); }
    let sorted = newest_first(all);
    proof {
        assert(derefs(sorted@).take(sorted@.len() as int) =~= derefs(sorted@));
    }
    let n = sorted.len();
    let recent = post_items(&sorted, if n < 5 { n } else { 5 }, posts_at, tags_at);
    let listed = post_items(&sorted, n, posts_at, tags_at);

    let counts = tag_counts(posts);
    let mut tags: Vec<Value<'a>> = Vec::new();
    let mut k: usize = 0;
    while k < counts.len()
        invariant
            k <= counts@.len(),
            at == ((posts_at.0@, posts_at.1@), (tags_at.0@, tags_at.1@)),
            tags@.len() == k,
            forall|j: int| 0 <= j < counts@.len() ==> (#[trigger] counts@[j]).1 == count_in(all_tags(posts@), counts@[j].0@),
            forall|j: int| 0 <= j < k ==> tag_item_ok(#[trigger] tags@[j], posts@, at) && tag_name(tags@[j]) == counts@[j].0@,
        decreases counts@.len() - k,
    {
        let (tag, count) = counts[k];
        tags.push(tag_item(tag, count, posts, posts_at, tags_at));
        k += 1;
    }
    proof {
        assert forall|t: Seq<char>| all_tags(posts@).contains(t) <==> exists|j: int| 0 <= j < tags@.len() && tag_name(#[trigger] tags@[j]) == t by {
            if all_tags(posts@).contains(t) {
                let j = choose|j: int| 0 <= j < counts@.len() && (#[trigger] counts@[j]).0@ == t;
                assert(tag_name(tags@[j]) == t);
            }
            if exists|j: int| 0 <= j < tags@.len() && tag_name(#[trigger] tags@[j]) == t {
                let j = choose|j: int| 0 <= j < tags@.len() && tag_name(#[trigger] tags@[j]) == t;
                assert(counts@[j].0@ == t);
            }
        }
        assert forall|a: int, b: int| 0 <= a < b < tags@.len() implies count_before(tag_count(posts@, #[trigger] tags@[a]), tag_count(posts@, #[trigger] tags@[b])) by {
            assert(count_before(count_view(counts@[a]), count_view(counts@[b])));
        }
    }

    let mut es: Vec<(&'a str, Value<'a>)> = Vec::new();
    text_entry(&mut es, "site_title", TITLE);
    text_entry(&mut es, "author", AUTHOR);
    text_entry(&mut es, "description", DESCRIPTION);
    let mut image = String::new();
    push_str(&mut image, WEBSITE);
    push_str(&mut image, "/og_default.jpg");
    text_entry(&mut es, "image", image.as_str());
    es.push(("year", Value::Num(ctx.year as i64)));
    es.push(("age", Value::Num(ctx.year as i64 - BIRTH_YEAR as i64)));
    es.push(("css", Value::html(css)));
    let reload = if ctx.live_reload {
        let script = crate::dev::live_reload();
        Value::html(script.as_str())
    } else {
        Value::Nil
    };
    es.push(("live_reload", reload));
    es.push(("recent", Value::list(recent)));
    es.push(("tags", Value::list(tags)));
    es.push(("posts", Value::list(listed)));
    proof {
        reveal_strlit("site_title");
        reveal_strlit("author");
        reveal_strlit("description");
        reveal_strlit("image");
        reveal_strlit("year");
        reveal_strlit("age");
        reveal_strlit("css");
        reveal_strlit("live_reload");
        reveal_strlit("recent");
    }
    Ok(Value::map(es))
}

proof fn lemma_date_pos(s: Seq<Post>, x: Post, i: int)
    requires
        0 <= i <= s.len(),
    ensures
        i <= date_pos(s, x, i) <= s.len(),
        forall|k: int| i <= k < date_pos(s, x, i) ==> !before(#[trigger] s[k].pub_date@, x.pub_date@),
        date_pos(s, x, i) < s.len() ==> before(s[date_pos(s, x, i)].pub_date@, x.pub_date@),
    decreases s.len() - i,
{
    if i < s.len() && !before(s[i].pub_date@, x.pub_date@) {
        lemma_date_pos(s, x, i + 1);
    }
}

/// Posts newest first, as every list of posts in the site value is: no post
/// comes before a newer one, and the posts listed are the posts given, each
/// as often as it is given.
pub proof fn lemma_by_date(s: Seq<Post>)
    ensures
        forall|i: int, j: int| 0 <= i < j < by_date(s).len() ==> !before(
            (#[trigger] by_date(s)[i]).pub_date@,
            (#[trigger] by_date(s)[j]).pub_date@,
        ),
        by_date(s).to_multiset() == s.to_multiset(),
    decreases s.len(),
{
    broadcast use vstd::seq_lib::to_multiset_insert, vstd::seq_lib::to_multiset_build;

    if s.len() > 0 {
        let r = by_date(s.drop_last());
        let x = s.last();
        lemma_by_date(s.drop_last());
        lemma_date_pos(r, x, 0);
        let p = date_pos(r, x, 0);
        let t = r.insert(p, x);
        assert(t == by_date(s));
        assert forall|i: int, j: int| 0 <= i < j < t.len() implies !before(
            (#[trigger] t[i]).pub_date@,
            (#[trigger] t[j]).pub_date@,
        ) by {
            if j < p {
            } else if j == p {
                assert(!before(r[i].pub_date@, x.pub_date@));
            } else if i < p {
                assert(t[j] == r[j - 1]);
            } else if i == p {
                assert(t[j] == r[j - 1]);
                assert(before(r[p].pub_date@, x.pub_date@));
                if p < j - 1 {
                    assert(!before(r[p].pub_date@, r[j - 1].pub_date@));
                }
            } else {
                assert(t[i] == r[i - 1]);
                assert(t[j] == r[j - 1]);
            }
        }
        assert(t.to_multiset() == r.to_multiset().insert(x));
        assert(s.drop_last().push(x).to_multiset() == s.drop_last().to_multiset().insert(x));
        assert(s.drop_last().push(x) =~= s);
    } else {
        assert(s =~= Seq::<Post>::empty());
    }
}

} // verus!
