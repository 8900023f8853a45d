//! The XML the site publishes besides its pages.
use vstd::prelude::*;

use crate::config::{DESCRIPTION, TITLE, WEBSITE};
use crate::content::Post;
use crate::date::{weekday_spec, year_text, MONTHS, WEEKDAYS};
use crate::render::post_url;
use crate::text::{
    at_pat, chars_of, find, find_pat, lemma_find_pat_bounds, padded, push_char, push_range,
    push_str,
};
use crate::xml::{is_char, replace_all, replace_from};

verus! {

/// What `esc_xml` writes for one character: nothing for a character XML does
/// not allow, an entity for the five that change meaning.
pub open spec fn esc_xml_char(c: char) -> Seq<char> {
    if !is_char(c) {
        seq![]
    } else if c == '&' {
        "&amp;"@
    } else if c == '<' {
        "&lt;"@
    } else if c == '>' {
        "&gt;"@
    } else if c == '"' {
        "&quot;"@
    } else if c == '\'' {
        "&apos;"@
    } else {
        seq![c]
    }
}

pub open spec fn esc_xml_spec(s: Seq<char>) -> Seq<char>
    decreases s.len(),
{
    if s.len() == 0 {
        seq![]
    } else {
        esc_xml_spec(s.drop_last()) + esc_xml_char(s.last())
    }
}

fn legal(c: char) -> (r: bool)
    ensures
        r == is_char(c),
{
    c == '\u{9}' || c == '\u{A}' || c == '\u{D}' || ('\u{20}' <= c && c <= '\u{D7FF}') || (
    '\u{E000}' <= c && c <= '\u{FFFD}') || ('\u{10000}' <= c && c <= '\u{10FFFF}')
}

/// Escapes text for XML, dropping the characters XML does not allow.
pub fn esc_xml(raw: &str) -> (r: String)
    ensures
        r@ == esc_xml_spec(raw@),
{
    let cs = chars_of(raw);
    let mut out = String::new();
    let mut k: usize = 0;
    while k < cs.len()
        invariant
            k <= cs@.len(),
            cs@ == raw@,
            out@ == esc_xml_spec(cs@.subrange(0, k as int)),
        decreases cs@.len() - k,
    {
        let c = cs[k];
        if legal(c) {
            if c == '&' {
                push_str(&mut out, "&amp;");
            } else if c == '<' {
                push_str(&mut out, "&lt;");
            } else if c == '>' {
                push_str(&mut out, "&gt;");
            } else if c == '"' {
                push_str(&mut out, "&quot;");
            } else if c == '\'' {
                push_str(&mut out, "&apos;");
            } else {
                push_char(&mut out, c);
            }
        }
        assert(cs@.subrange(0, k + 1).drop_last() =~= cs@.subrange(0, k as int));
        k += 1;
    }
    assert(cs@.subrange(0, cs@.len() as int) =~= cs@);
    out
}

/// A CDATA section; a `]]>` inside is split across two sections.
pub fn cdata(raw: &str) -> (r: String)
    ensures
        r@ == "<![CDATA["@ + replace_from(raw@, 0, "]]>"@, "]]]]><![CDATA[>"@) + "]]>"@,
{
    let cs = chars_of(raw);
    let pat = chars_of("]]>");
    proof { reveal_strlit("]]>"); }
    let mut out = String::new();
    push_str(&mut out, "<![CDATA[");
    let body = replace_all(&cs, &pat, "]]]]><![CDATA[>");
    push_str(&mut out, body.as_str());
    push_str(&mut out, "]]>");
    out
}

/// `chunk` with root-relative `href` and `src` values made absolute.
pub open spec fn replace_urls_spec(chunk: Seq<char>, base: Seq<char>) -> Seq<char> {
    let first = replace_from(chunk, 0, "href=\"/"@, "href=\""@ + base + "/"@);
    replace_from(first, 0, "src=\"/"@, "src=\""@ + base + "/"@)
}

fn replace_urls(chunk: &[char], base: &str) -> (r: String)
    ensures
        r@ == replace_urls_spec(chunk@, base@),
{
    let href = chars_of("href=\"/");
    let src = chars_of("src=\"/");
    proof {
        reveal_strlit("href=\"/");
        reveal_strlit("src=\"/");
    }
    let mut with_href = String::new();
    push_str(&mut with_href, "href=\"");
    push_str(&mut with_href, base);
    push_str(&mut with_href, "/");
    let first = replace_all(chunk, &href, with_href.as_str());
    let fc = chars_of(first.as_str());
    let mut with_src = String::new();
    push_str(&mut with_src, "src=\"");
    push_str(&mut with_src, base);
    push_str(&mut with_src, "/");
    replace_all(&fc, &src, with_src.as_str())
}

/// Where the chunk that starts at `i` ends: just past the next `</code>`.
pub open spec fn code_chunk_end(s: Seq<char>, i: int) -> int {
    match find_pat(s, i, s.len() as int, "</code>"@) {
        Some(k) => k + 7,
        None => s.len() as int,
    }
}

/// Makes the root-relative links of `s[i..]` absolute, chunk by chunk, leaving
/// anything from a `<code` to the end of its chunk alone.
pub open spec fn absolutize_from(s: Seq<char>, i: int, base: Seq<char>) -> Seq<char>
    decreases s.len() - i,
{
    if !(0 <= i < s.len()) {
        seq![]
    } else {
        let e = code_chunk_end(s, i);
        if !(i < e <= s.len()) {
            seq![]
        } else {
            let piece = match find_pat(s, i, e, "<code"@) {
                Some(at) => replace_urls_spec(s.subrange(i, at), base) + s.subrange(at, e),
                None => replace_urls_spec(s.subrange(i, e), base),
            };
            piece + absolutize_from(s, e, base)
        }
    }
}

pub fn absolutize(html: &str, base: &str) -> (r: String)
    ensures
        r@ == absolutize_from(html@, 0, base@),
{
    let s = chars_of(html);
    let len = s.len();
    let mut out = String::new();
    let mut i: usize = 0;
    proof {
        reveal_strlit("</code>");
        reveal_strlit("<code");
    }
    while i < len
        invariant
            i <= len == s@.len(),
            s@ == html@,
            absolutize_from(html@, 0, base@) == out@ + absolutize_from(html@, i as int, base@),
        decreases len - i,
    {
        proof {
            reveal_strlit("</code>");
            lemma_find_pat_bounds(s@, i as int, len as int, "</code>"@);
        }
        let e = match find(&s, i, len, "</code>") {
            Some(k) => k + 7,
            None => len,
        };
        proof { lemma_find_pat_bounds(s@, i as int, e as int, "<code"@); }
        let ghost before = out@;
        match find(&s, i, e, "<code") {
            Some(at) => {
                let part = crate::text::range_string(&s, i, at);
                let pc = chars_of(part.as_str());
                let fixed = replace_urls(&pc, base);
                push_str(&mut out, fixed.as_str());
                push_range(&mut out, &s, at, e);
            },
            None => {
                let part = crate::text::range_string(&s, i, e);
                let pc = chars_of(part.as_str());
                let fixed = replace_urls(&pc, base);
                push_str(&mut out, fixed.as_str());
            },
        }
        assert(before + absolutize_from(html@, i as int, base@) =~= out@ + absolutize_from(html@, e as int, base@));
        i = e;
    }
    assert(out@ + absolutize_from(html@, i as int, base@) =~= out@);
    out
}

pub open spec fn urls_spec(pages: Seq<Seq<char>>, site: Seq<char>) -> Seq<char>
    decreases pages.len(),
{
    if pages.len() == 0 {
        seq![]
    } else {
        urls_spec(pages.drop_last(), site) + "<url><loc>"@ + esc_xml_spec(site + pages.last()) + "</loc></url>"@
    }
}

pub open spec fn sitemap_spec(pages: Seq<Seq<char>>) -> Seq<char> {
    "<?xml version=\"1.0\" encoding=\"UTF-8\"?>\n<urlset xmlns=\"http://www.sitemaps.org/schemas/sitemap/0.9\">"@
        + urls_spec(pages, crate::config::WEBSITE@) + "</urlset>\n"@
}

/// The sitemap: one `<url>` per page path.
pub fn sitemap(pages: &[String]) -> (r: String)
    ensures
        r@ == sitemap_spec(crate::xml::strings_view(pages@)),
{
    let ghost pv = crate::xml::strings_view(pages@);
    let mut urls = String::new();
    let mut k: usize = 0;
    while k < pages.len()
        invariant
            k <= pages@.len(),
            pv == crate::xml::strings_view(pages@),
            urls@ == urls_spec(pv.subrange(0, k as int), crate::config::WEBSITE@),
        decreases pages@.len() - k,
    {
        let mut loc = String::new();
        push_str(&mut loc, crate::config::WEBSITE);
        push_str(&mut loc, pages[k].as_str());
        push_str(&mut urls, "<url><loc>");
        let e = esc_xml(loc.as_str());
        push_str(&mut urls, e.as_str());
        push_str(&mut urls, "</loc></url>");
        assert(pv.subrange(0, k + 1).drop_last() =~= pv.subrange(0, k as int));
        k += 1;
    }
    assert(pv.subrange(0, pages@.len() as int) =~= pv);
    let mut out = String::new();
    push_str(&mut out, "<?xml version=\"1.0\" encoding=\"UTF-8\"?>\n<urlset xmlns=\"http://www.sitemaps.org/schemas/sitemap/0.9\">");
    push_str(&mut out, urls.as_str());
    push_str(&mut out, "</urlset>\n");
    out
}

/// A date as RSS writes it: `Www, DD Mon YYYY 00:00:00 GMT`.
pub open spec fn rfc822_spec(d: (int, int, int)) -> Seq<char> {
    WEEKDAYS@[weekday_spec(d.0, d.1, d.2)]@ + ", "@ + padded(d.2 as nat, 2) + " "@ + MONTHS@[d.1 - 1]@
        + " "@ + year_text(d.0) + " 00:00:00 GMT"@
}

/// One feed item: title, link, permanent guid, date, the summary if there is
/// one, and the whole post with its links made absolute.
pub open spec fn item_spec(p: Post) -> Seq<char> {
    let url = WEBSITE@ + "/blog/"@ + p.slug@ + "/"@;
    let description = match p.description {
        Some(d) => "<description>"@ + esc_xml_spec(d@) + "</description>"@,
        None => match p.subtitle {
            Some(t) => "<description>"@ + esc_xml_spec(t@) + "</description>"@,
            None => seq![],
        },
    };
    "<item><title>"@ + esc_xml_spec(p.title@) + "</title><link>"@ + url
        + "</link><guid isPermaLink=\"true\">"@ + url + "</guid><pubDate>"@ + rfc822_spec(p.pub_date@)
        + "</pubDate>"@ + description + "<content:encoded>"@ + "<![CDATA["@ + replace_from(
        absolutize_from(p.html@, 0, WEBSITE@),
        0,
        "]]>"@,
        "]]]]><![CDATA[>"@,
    ) + "]]>"@ + "</content:encoded></item>"@
}

fn item(post: &Post) -> (r: String)
    ensures
        r@ == item_spec(*post),
{
    let mut url = String::new();
    push_str(&mut url, WEBSITE);
    let path = post_url(post.slug.as_str());
    push_str(&mut url, path.as_str());
    let mut out = String::new();
    push_str(&mut out, "<item><title>");
    let title = esc_xml(post.title.as_str());
    push_str(&mut out, title.as_str());
    push_str(&mut out, "</title><link>");
    push_str(&mut out, url.as_str());
    push_str(&mut out, "</link><guid isPermaLink=\"true\">");
    push_str(&mut out, url.as_str());
    push_str(&mut out, "</guid><pubDate>");
    let date = post.pub_date.rfc822();
    push_str(&mut out, date.as_str());
    push_str(&mut out, "</pubDate>");
    match post.summary() {
        Some(s) => {
            push_str(&mut out, "<description>");
            let d = esc_xml(s);
            push_str(&mut out, d.as_str());
            push_str(&mut out, "</description>");
        },
        None => {},
    }
    push_str(&mut out, "<content:encoded>");
    let abs = absolutize(post.html.as_str(), WEBSITE);
    let body = cdata(abs.as_str());
    push_str(&mut out, body.as_str());
    push_str(&mut out, "</content:encoded></item>");
    proof {
        assert(url@ =~= WEBSITE@ + "/blog/"@ + post.slug@ + "/"@);
        assert(out@ =~= item_spec(*post));
    }
    out
}

pub open spec fn items_spec(posts: Seq<Post>) -> Seq<char>
    decreases posts.len(),
{
    if posts.len() == 0 {
        seq![]
    } else {
        items_spec(posts.drop_last()) + item_spec(posts.last())
    }
}

/// The feed of `posts`, in the order given.
pub open spec fn rss_spec(posts: Seq<Post>) -> Seq<char> {
    "<?xml version=\"1.0\" encoding=\"UTF-8\"?>\n<rss version=\"2.0\" xmlns:atom=\"http://www.w3.org/2005/Atom\" xmlns:content=\"http://purl.org/rss/1.0/modules/content/\"><channel><title>"@
        + esc_xml_spec(TITLE@) + "</title><description>"@ + esc_xml_spec(DESCRIPTION@)
        + "</description><link>"@ + WEBSITE@ + "</link><atom:link href=\""@ + WEBSITE@
        + "/rss.xml\" rel=\"self\" type=\"application/rss+xml\"/>"@ + items_spec(posts)
        + "</channel></rss>\n"@
}

pub open spec fn derefs(posts: Seq<&Post>) -> Seq<Post> {
    posts.map_values(|p: &Post| *p)
}

/// The RSS feed of the given posts, in the order given.
pub fn rss(posts: &[&Post]) -> (r: String)
    ensures
        r@ == rss_spec(derefs(posts@)),
{
    let ghost ps = derefs(posts@);
    let mut items = String::new();
    let mut k: usize = 0;
    while k < posts.len()
        invariant
            k <= posts@.len(),
            ps == derefs(posts@),
            items@ == items_spec(ps.subrange(0, k as int)),
        decreases posts@.len() - k,
    {
        let one = item(posts[k]);
        push_str(&mut items, one.as_str());
        assert(ps.subrange(0, k + 1).drop_last() =~= ps.subrange(0, k as int));
        k += 1;
    }
    assert(ps.subrange(0, posts@.len() as int) =~= ps);
    let mut out = String::new();
    push_str(&mut out, "<?xml version=\"1.0\" encoding=\"UTF-8\"?>\n<rss version=\"2.0\" xmlns:atom=\"http://www.w3.org/2005/Atom\" xmlns:content=\"http://purl.org/rss/1.0/modules/content/\"><channel><title>");
    let t = esc_xml(TITLE);
    push_str(&mut out, t.as_str());
    push_str(&mut out, "</title><description>");
    let d = esc_xml(DESCRIPTION);
    push_str(&mut out, d.as_str());
    push_str(&mut out, "</description><link>");
    push_str(&mut out, WEBSITE);
    push_str(&mut out, "</link><atom:link href=\"");
    push_str(&mut out, WEBSITE);
    push_str(&mut out, "/rss.xml\" rel=\"self\" type=\"application/rss+xml\"/>");
    push_str(&mut out, items.as_str());
    push_str(&mut out, "</channel></rss>\n");
    out
}

// -- Laws ---------------------------------------------------------------------

/// The items of each post, in order, one after the other.
pub open spec fn each_item(posts: Seq<Post>) -> Seq<Seq<char>> {
    Seq::new(posts.len(), |k: int| item_spec(posts[k]))
}

proof fn lemma_items_each(posts: Seq<Post>)
    ensures
        items_spec(posts) == each_item(posts).flatten(),
    decreases posts.len(),
{
    if posts.len() > 0 {
        let init = posts.drop_last();
        lemma_items_each(init);
        assert(each_item(posts) =~= each_item(init).push(item_spec(posts.last())));
        each_item(init).lemma_flatten_push(item_spec(posts.last()));
    } else {
        assert(each_item(posts) =~= Seq::<Seq<char>>::empty());
    }
}

/// The feed holds one item per post given, in the order given, and nothing
/// else changes with the posts: it is the empty feed with the items of every
/// post, one after the other, put in before `</channel>`.
pub proof fn lemma_rss_holds_every_post(posts: Seq<Post>)
    ensures
        ({
            let empty = rss_spec(seq![]);
            let tail = "</channel></rss>\n"@;
            &&& empty.len() >= tail.len()
            &&& empty.subrange(empty.len() - tail.len(), empty.len() as int) == tail
            &&& rss_spec(posts) == empty.subrange(0, empty.len() - tail.len()) + each_item(posts).flatten()
                + tail
        }),
{
    lemma_items_each(posts);
    let empty = rss_spec(seq![]);
    let tail = "</channel></rss>\n"@;
    let head = "<?xml version=\"1.0\" encoding=\"UTF-8\"?>\n<rss version=\"2.0\" xmlns:atom=\"http://www.w3.org/2005/Atom\" xmlns:content=\"http://purl.org/rss/1.0/modules/content/\"><channel><title>"@
        + esc_xml_spec(TITLE@) + "</title><description>"@ + esc_xml_spec(DESCRIPTION@)
        + "</description><link>"@ + WEBSITE@ + "</link><atom:link href=\""@ + WEBSITE@
        + "/rss.xml\" rel=\"self\" type=\"application/rss+xml\"/>"@;
    assert(items_spec(seq![]) =~= Seq::<char>::empty());
    assert(empty =~= head + tail);
    assert(empty.subrange(0, empty.len() - tail.len()) =~= head);
    assert(empty.subrange(empty.len() - tail.len(), empty.len() as int) =~= tail);
    assert(rss_spec(posts) =~= head + items_spec(posts) + tail);
}

/// Each post's item names the post: it opens with the post's escaped title
/// and its absolute link, and closes the item.
pub proof fn lemma_item_names_its_post(p: Post)
    ensures
        ({
            let head = "<item><title>"@ + esc_xml_spec(p.title@) + "</title><link>"@ + WEBSITE@ + "/blog/"@
                + p.slug@ + "/</link>"@;
            let i = item_spec(p);
            &&& i.len() >= head.len() + "</item>"@.len()
            &&& i.subrange(0, head.len() as int) == head
            &&& i.subrange(i.len() - "</item>"@.len(), i.len() as int) == "</item>"@
        }),
{
    reveal_strlit("/</link>");
    reveal_strlit("/");
    reveal_strlit("</link>");
    reveal_strlit("</item>");
    reveal_strlit("</content:encoded></item>");
    reveal_strlit("</link><guid isPermaLink=\"true\">");
    reveal_strlit("<guid isPermaLink=\"true\">");
    let url = WEBSITE@ + "/blog/"@ + p.slug@ + "/"@;
    let head = "<item><title>"@ + esc_xml_spec(p.title@) + "</title><link>"@ + WEBSITE@ + "/blog/"@
        + p.slug@ + "/</link>"@;
    let i = item_spec(p);
    let rest = "<guid isPermaLink=\"true\">"@ + url + "</guid><pubDate>"@ + rfc822_spec(p.pub_date@)
        + "</pubDate>"@ + (match p.description {
            Some(d) => "<description>"@ + esc_xml_spec(d@) + "</description>"@,
            None => match p.subtitle {
                Some(t) => "<description>"@ + esc_xml_spec(t@) + "</description>"@,
                None => seq![],
            },
        }) + "<content:encoded>"@ + "<![CDATA["@ + replace_from(
        absolutize_from(p.html@, 0, WEBSITE@),
        0,
        "]]>"@,
        "]]]]><![CDATA[>"@,
    ) + "]]>"@;
    assert("/"@ + "</link>"@ =~= "/</link>"@);
    assert("</link>"@ + "<guid isPermaLink=\"true\">"@ =~= "</link><guid isPermaLink=\"true\">"@);
    assert(i =~= head + rest + "</content:encoded></item>"@);
    assert(i.subrange(0, head.len() as int) =~= head);
    let n = i.len() as int;
    assert("</content:encoded></item>"@.subrange(18, 25) =~= "</item>"@);
    assert(i.subrange(n - 7, n) =~= "</item>"@);
}

/// One `<url>` entry per page path, in order, each with the absolute address
/// of the page.
pub open spec fn each_url(pages: Seq<Seq<char>>) -> Seq<Seq<char>> {
    Seq::new(pages.len(), |k: int| "<url><loc>"@ + esc_xml_spec(WEBSITE@ + pages[k]) + "</loc></url>"@)
}

proof fn lemma_urls_each(pages: Seq<Seq<char>>)
    ensures
        urls_spec(pages, WEBSITE@) == each_url(pages).flatten(),
    decreases pages.len(),
{
    if pages.len() > 0 {
        let init = pages.drop_last();
        lemma_urls_each(init);
        let last = "<url><loc>"@ + esc_xml_spec(WEBSITE@ + pages.last()) + "</loc></url>"@;
        assert(each_url(pages) =~= each_url(init).push(last));
        each_url(init).lemma_flatten_push(last);
        assert(urls_spec(pages, WEBSITE@) =~= urls_spec(init, WEBSITE@) + last);
    } else {
        assert(each_url(pages) =~= Seq::<Seq<char>>::empty());
    }
}

/// The sitemap lists every page path given, in the order given, as one
/// `<url>` entry holding its absolute address: it is the empty sitemap with
/// those entries put in before `</urlset>`.
pub proof fn lemma_sitemap_lists_every_page(pages: Seq<Seq<char>>)
    ensures
        ({
            let empty = sitemap_spec(seq![]);
            let tail = "</urlset>\n"@;
            &&& empty.len() >= tail.len()
            &&& empty.subrange(empty.len() - tail.len(), empty.len() as int) == tail
            &&& sitemap_spec(pages) == empty.subrange(0, empty.len() - tail.len()) + each_url(pages).flatten()
                + tail
        }),
{
    lemma_urls_each(pages);
    let empty = sitemap_spec(seq![]);
    let tail = "</urlset>\n"@;
    let head = "<?xml version=\"1.0\" encoding=\"UTF-8\"?>\n<urlset xmlns=\"http://www.sitemaps.org/schemas/sitemap/0.9\">"@;
    assert(urls_spec(seq![], WEBSITE@) =~= Seq::<char>::empty());
    assert(empty =~= head + tail);
    assert(empty.subrange(0, empty.len() - tail.len()) =~= head);
    assert(empty.subrange(empty.len() - tail.len(), empty.len() as int) =~= tail);
    assert(sitemap_spec(pages) =~= head + urls_spec(pages, WEBSITE@) + tail);
}

} // verus!
