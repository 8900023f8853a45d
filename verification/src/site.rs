//! What a build writes, by path: the three index pages, each post's page and
//! fragment, each tag's page, the feed and the sitemap.
use vstd::prelude::*;

use crate::config::{AUTHOR, DESCRIPTION, TITLE};
use crate::content::{
    all_tags, count_before, count_in, count_view, lemma_newest_first, newest_first,
    newest_first_spec, tag_counts, Post,
};
use crate::dev::{live_reload, slashes_end};
use crate::feeds::{rss, rss_spec, sitemap, sitemap_spec};
use crate::render::{
    article_spec, blog_index, esc_spec, fill_spec, home, home_spec, layout, layout_spec,
    listing_spec, post_fragment, post_items_spec, post_page, post_url, fragment_url, tag_items_spec,
    tag_page, tag_url, tag_url_spec, tags_index, Page, Theme,
};
use crate::text::{chars_of, push_range, push_str};
use crate::Ctx;

verus! {

/// The posts a build publishes: all of them in development, the ones that are
/// not drafts otherwise.
pub open spec fn published(ps: Seq<Post>, drafts: bool) -> Seq<Post>
    decreases ps.len(),
{
    if ps.len() == 0 {
        seq![]
    } else if drafts || !ps.last().draft {
        published(ps.drop_last(), drafts).push(ps.last())
    } else {
        published(ps.drop_last(), drafts)
    }
}

/// Where a page with URL `canonical` is written: under its directory, as
/// `index.html`.
pub open spec fn index_path(canonical: Seq<char>) -> Seq<char> {
    canonical.subrange(slashes_end(canonical, 0, canonical.len() as int), canonical.len() as int)
        + "index.html"@
}

pub type Parts = (Seq<char>, Seq<char>, Seq<char>, Seq<char>);

/// A page in the site's frame, at its path.
#[verifier::opaque]
pub open spec fn framed(theme: Theme, ctx: Ctx, p: Parts) -> (Seq<char>, Seq<char>) {
    let reload = if ctx.live_reload {
        Some(
            "(function(){try{new EventSource('/__livereload').onmessage=function(){location.reload()}}catch(e){}})();"@,
        )
    } else {
        None
    };
    (index_path(p.2), layout_spec(theme, p, ctx.year as int, reload))
}

/// The posts that carry `tag`, in order.
pub open spec fn tagged(ps: Seq<Post>, tag: Seq<char>) -> Seq<Post> {
    crate::model::tagged(ps, tag)
}

pub open spec fn post_parts(theme: Theme, p: Post) -> Parts {
    (
        p.title@,
        crate::model::description_of(p),
        "/blog/"@ + p.slug@ + "/"@,
        fill_spec(
            theme.template(10),
            seq![("author"@, esc_spec(AUTHOR@)), ("article"@, article_spec(theme, p))],
        ),
    )
}

/// Each post's page, then its fragment.
pub open spec fn post_files(theme: Theme, ctx: Ctx, ps: Seq<Post>) -> Seq<(Seq<char>, Seq<char>)>
    decreases ps.len(),
{
    if ps.len() == 0 {
        seq![]
    } else {
        let p = ps.last();
        post_files(theme, ctx, ps.drop_last()) + seq![
            framed(theme, ctx, post_parts(theme, p)),
            ("blog/"@ + p.slug@ + "/fragment.html"@, article_spec(theme, p)),
        ]
    }
}

pub open spec fn tag_parts(theme: Theme, ps: Seq<Post>, tag: Seq<char>) -> Parts {
    (
        tag,
        DESCRIPTION@,
        tag_url_spec(tag),
        listing_spec(
            theme,
            "/tags/"@,
            "tags"@,
            "#"@ + esc_spec(tag),
            "posts"@,
            post_items_spec(theme, tagged(ps, tag)),
        ),
    )
}

/// Each tag's page, in the order of `tags`.
pub open spec fn tag_files(theme: Theme, ctx: Ctx, ps: Seq<Post>, tags: Seq<(&str, usize)>) -> Seq<(Seq<char>, Seq<char>)>
    decreases tags.len(),
{
    if tags.len() == 0 {
        seq![]
    } else {
        tag_files(theme, ctx, ps, tags.drop_last()) + seq![framed(theme, ctx, tag_parts(theme, ps, tags.last().0@))]
    }
}

pub open spec fn post_urls(ps: Seq<Post>) -> Seq<Seq<char>> {
    ps.map_values(|p: Post| "/blog/"@ + p.slug@ + "/"@)
}

pub open spec fn tag_urls(tags: Seq<(&str, usize)>) -> Seq<Seq<char>> {
    tags.map_values(|t: (&str, usize)| tag_url_spec(t.0@))
}

/// Every file of the site for the published posts `ps` (newest first) and
/// their tag counts `tags`, in the order a build writes them.
pub open spec fn site_spec(theme: Theme, ctx: Ctx, ps: Seq<Post>, tags: Seq<(&str, usize)>) -> Seq<(Seq<char>, Seq<char>)> {
    seq![
        framed(theme, ctx, (TITLE@, DESCRIPTION@, "/"@, home_spec(theme, ps, ctx.year as int))),
        framed(
            theme,
            ctx,
            (
                "posts | vitor s. almeida"@,
                DESCRIPTION@,
                "/blog/"@,
                listing_spec(theme, "/"@, esc_spec(AUTHOR@), "all posts"@, "posts"@, post_items_spec(theme, ps)),
            ),
        ),
        framed(
            theme,
            ctx,
            (
                "tags | vitor s. almeida"@,
                DESCRIPTION@,
                "/tags/"@,
                listing_spec(theme, "/"@, esc_spec(AUTHOR@), "tags"@, "links"@, tag_items_spec(theme, tags)),
            ),
        ),
    ] + post_files(theme, ctx, ps) + tag_files(theme, ctx, ps, tags) + seq![
        ("rss.xml"@, rss_spec(ps)),
        ("sitemap.xml"@, sitemap_spec(seq!["/"@, "/blog/"@, "/tags/"@] + post_urls(ps) + tag_urls(tags))),
    ]
}

/// What `tag_counts` promises of its list.
pub open spec fn counted(ps: Seq<Post>, r: Seq<(&str, usize)>) -> bool {
    &&& forall|i: int| 0 <= i < r.len() ==> (#[trigger] r[i]).1 == count_in(all_tags(ps), r[i].0@)
    &&& forall|t: Seq<char>| all_tags(ps).contains(t) <==> exists|i: int| 0 <= i < r.len() && (#[trigger] r[i]).0@ == t
    &&& forall|i: int, j: int| 0 <= i < j < r.len() ==> count_before(count_view(#[trigger] r[i]), count_view(#[trigger] r[j]))
}

pub open spec fn files_view(v: Seq<(String, String)>) -> Seq<(Seq<char>, Seq<char>)> {
    v.map_values(|f: (String, String)| (f.0@, f.1@))
}

proof fn lemma_all_tags_insert(s: Seq<Post>, i: int, x: Post)
    requires
        0 <= i <= s.len(),
    ensures
        all_tags(s.insert(i, x)).len() == all_tags(s).len() + x.tags@.len(),
    decreases s.len(),
{
    if i == s.len() {
        assert(s.insert(i, x).drop_last() =~= s);
    } else {
        lemma_all_tags_insert(s.drop_last(), i, x);
        assert(s.insert(i, x).drop_last() =~= s.drop_last().insert(i, x));
        assert(s.insert(i, x).last() == s.last());
    }
}

proof fn lemma_all_tags_sorted(s: Seq<Post>)
    ensures
        all_tags(newest_first_spec(s)).len() == all_tags(s).len(),
    decreases s.len(),
{
    if s.len() > 0 {
        lemma_all_tags_sorted(s.drop_last());
        crate::content::lemma_newest_first_len(s.drop_last());
        crate::content::lemma_insert_pos(newest_first_spec(s.drop_last()), s.last(), 0);
        lemma_all_tags_insert(
            newest_first_spec(s.drop_last()),
            crate::content::insert_pos(newest_first_spec(s.drop_last()), s.last(), 0),
            s.last(),
        );
    }
}

proof fn lemma_published(s: Seq<Post>, drafts: bool)
    ensures
        all_tags(published(s, drafts)).len() <= all_tags(s).len(),
        forall|p: Post| published(s, drafts).contains(p) ==> s.contains(p),
    decreases s.len(),
{
    if s.len() > 0 {
        lemma_published(s.drop_last(), drafts);
        let q = published(s.drop_last(), drafts);
        if drafts || !s.last().draft {
            assert(q.push(s.last()).drop_last() =~= q);
        }
        assert forall|p: Post| published(s, drafts).contains(p) implies s.contains(p) by {
            let k = choose|k: int| 0 <= k < published(s, drafts).len() && published(s, drafts)[k] == p;
            if k < q.len() {
                assert(q[k] == p);
                assert(q.contains(p));
                assert(s.drop_last().contains(p));
                let j = choose|j: int| 0 <= j < s.drop_last().len() && s.drop_last()[j] == p;
                assert(s[j] == p);
            } else {
                assert(s[s.len() - 1] == p);
            }
        }
    }
}

/// A page in the frame, at its path.
fn frame(theme: &Theme, ctx: Ctx, page: &Page, reload: &Option<String>) -> (r: (String, String))
    requires
        reload_ok(*reload, ctx),
    ensures
        (r.0@, r.1@) == framed(*theme, ctx, page.view_parts()),
{
    let cs = chars_of(page.canonical);
    let mut a: usize = 0;
    while a < cs.len() && cs[a] == '/'
        invariant
            a <= cs@.len(),
            cs@ == page.canonical@,
            slashes_end(cs@, 0, cs@.len() as int) == slashes_end(cs@, a as int, cs@.len() as int),
        decreases cs@.len() - a,
    {
        a += 1;
    }
    let mut path = String::new();
    push_range(&mut path, &cs, a, cs.len());
    push_str(&mut path, "index.html");
    let js = match reload {
        Some(js) => Some(js.as_str()),
        None => None,
    };
    let html = layout(theme, page, ctx.year, js);
    proof { reveal(framed); }
    (path, html)
}

fn publish(posts: Vec<Post>, drafts: bool) -> (r: Vec<Post>)
    ensures
        r@ == published(posts@, drafts),
{
    let ghost orig = posts@;
    let mut posts = posts;
    let mut kept: Vec<Post> = Vec::new();
    let ghost mut i: int = 0;
    proof { assert(orig.skip(0) =~= orig); }
    while posts.len() > 0
        invariant
            0 <= i <= orig.len(),
            posts@ == orig.skip(i),
            kept@ == published(orig.take(i), drafts),
        decreases posts@.len(),
    {
        let p = posts.remove(0);
        proof {
            assert(orig.take(i + 1).drop_last() =~= orig.take(i));
            assert(orig.take(i + 1).last() == p);
        }
        if drafts || !p.draft {
            kept.push(p);
        }
        proof {
            assert(posts@ =~= orig.skip(i + 1));
            i = i + 1;
        }
    }
    proof { assert(orig.take(i) =~= orig); }
    kept
}

pub open spec fn reload_ok(reload: Option<String>, ctx: Ctx) -> bool {
    match reload {
        Some(js) => ctx.live_reload && js@ == "(function(){try{new EventSource('/__livereload').onmessage=function(){location.reload()}}catch(e){}})();"@,
        None => !ctx.live_reload,
    }
}

fn post_pages(theme: &Theme, ctx: Ctx, ps: &Vec<Post>, reload: &Option<String>, files: &mut Vec<(String, String)>, urls: &mut Vec<String>)
    requires
        reload_ok(*reload, ctx),
    ensures
        files_view(final(files)@) == files_view(old(files)@) + post_files(*theme, ctx, ps@),
        crate::xml::strings_view(final(urls)@) == crate::xml::strings_view(old(urls)@) + post_urls(ps@),
{
    let ghost psv = ps@;
    let ghost head = files_view(files@);
    let ghost uhead = crate::xml::strings_view(urls@);
    let mut k: usize = 0;
    proof {
        assert(head + post_files(*theme, ctx, psv.take(0)) =~= head);
        assert(uhead + post_urls(psv.take(0)) =~= uhead);
    }
    while k < ps.len()
        invariant
            k <= ps@.len(),
            psv == ps@,
            reload_ok(*reload, ctx),
            files_view(files@) == head + post_files(*theme, ctx, psv.take(k as int)),
            crate::xml::strings_view(urls@) == uhead + post_urls(psv.take(k as int)),
        decreases ps@.len() - k,
    {
        let p = &ps[k];
        let url = post_url(p.slug.as_str());
        let page = post_page(theme, p, url.as_str());
        let ghost before = files_view(files@);
        let ghost ubefore = crate::xml::strings_view(urls@);
        files.push(frame(theme, ctx, &page, reload));
        let mut path = String::new();
        push_str(&mut path, "blog/");
        push_str(&mut path, p.slug.as_str());
        push_str(&mut path, "/fragment.html");
        let body = post_fragment(theme, p);
        files.push((path, body));
        proof {
            assert(psv.take(k + 1).drop_last() =~= psv.take(k as int));
            assert(psv.take(k + 1).last() == *p);
            assert(page.view_parts() == post_parts(*theme, *p));
            assert(files_view(files@) =~= before + seq![
                framed(*theme, ctx, post_parts(*theme, *p)),
                ("blog/"@ + p.slug@ + "/fragment.html"@, article_spec(*theme, *p)),
            ]);
        }
        urls.push(url);
        proof {
            assert(crate::xml::strings_view(urls@) =~= ubefore.push("/blog/"@ + p.slug@ + "/"@));
            assert(post_urls(psv.take(k + 1)) =~= post_urls(psv.take(k as int)).push("/blog/"@ + p.slug@ + "/"@));
        }
        k += 1;
    }
    proof { assert(psv.take(ps@.len() as int) =~= psv); }
}

fn tagged_posts<'a>(ps: &'a Vec<Post>, tag: &str) -> (r: Vec<&'a Post>)
    ensures
        crate::render::derefs(r@) == tagged(ps@, tag@),
{
    let ghost psv = ps@;
    let mut out: Vec<&Post> = Vec::new();
    let mut j: usize = 0;
    proof { assert(crate::render::derefs(out@) =~= crate::model::tagged(psv.take(0), tag@)); }
    while j < ps.len()
        invariant
            j <= ps@.len(),
            psv == ps@,
            crate::render::derefs(out@) == crate::model::tagged(psv.take(j as int), tag@),
        decreases ps@.len() - j,
    {
        if crate::model::carries(&ps[j], tag) {
            out.push(&ps[j]);
        }
        proof {
            assert(psv.take(j + 1).drop_last() =~= psv.take(j as int));
            assert(crate::render::derefs(out@) =~= crate::model::tagged(psv.take(j + 1), tag@));
        }
        j += 1;
    }
    proof { assert(psv.take(ps@.len() as int) =~= psv); }
    out
}

fn tag_pages(theme: &Theme, ctx: Ctx, ps: &Vec<Post>, counts: &Vec<(&str, usize)>, reload: &Option<String>, files: &mut Vec<(String, String)>, urls: &mut Vec<String>)
    requires
        reload_ok(*reload, ctx),
    ensures
        files_view(final(files)@) == files_view(old(files)@) + tag_files(*theme, ctx, ps@, counts@),
        crate::xml::strings_view(final(urls)@) == crate::xml::strings_view(old(urls)@) + tag_urls(counts@),
{
    let ghost mid = files_view(files@);
    let ghost umid = crate::xml::strings_view(urls@);
    let mut k: usize = 0;
    proof {
        assert(mid + tag_files(*theme, ctx, ps@, counts@.take(0)) =~= mid);
        assert(umid + tag_urls(counts@.take(0)) =~= umid);
    }
    while k < counts.len()
        invariant
            k <= counts@.len(),
            reload_ok(*reload, ctx),
            files_view(files@) == mid + tag_files(*theme, ctx, ps@, counts@.take(k as int)),
            crate::xml::strings_view(urls@) == umid + tag_urls(counts@.take(k as int)),
        decreases counts@.len() - k,
    {
        let (tag, _) = counts[k];
        let url = tag_url(tag);
        let with_tag = tagged_posts(ps, tag);
        let page = tag_page(theme, tag, with_tag.as_slice(), url.as_str());
        let ghost before = files_view(files@);
        let ghost ubefore = crate::xml::strings_view(urls@);
        files.push(frame(theme, ctx, &page, reload));
        urls.push(url);
        proof {
            assert(counts@.take(k + 1).drop_last() =~= counts@.take(k as int));
            assert(counts@.take(k + 1).last() == counts@[k as int]);
            assert(page.view_parts() == tag_parts(*theme, ps@, tag@));
            assert(files_view(files@) =~= before + seq![framed(*theme, ctx, tag_parts(*theme, ps@, tag@))]);
            assert(crate::xml::strings_view(urls@) =~= ubefore.push(tag_url_spec(tag@)));
            assert(tag_urls(counts@.take(k + 1)) =~= tag_urls(counts@.take(k as int)).push(tag_url_spec(tag@)));
        }
        k += 1;
    }
    proof { assert(counts@.take(counts@.len() as int) =~= counts@); }
}

fn feed(ps: &Vec<Post>) -> (r: String)
    ensures
        r@ == rss_spec(ps@),
{
    let ghost psv = ps@;
    let mut all: Vec<&Post> = Vec::new();
    let mut j: usize = 0;
    proof { assert(crate::feeds::derefs(all@) =~= psv.take(0)); }
    while j < ps.len()
        invariant
            j <= ps@.len(),
            psv == ps@,
            crate::feeds::derefs(all@) == psv.take(j as int),
        decreases ps@.len() - j,
    {
        let ghost ab = all@;
        all.push(&ps[j]);
        proof {
            assert(crate::feeds::derefs(all@) =~= crate::feeds::derefs(ab).push(psv[j as int]));
            assert(crate::feeds::derefs(all@) =~= psv.take(j + 1));
        }
        j += 1;
    }
    proof {
        assert(psv.take(ps@.len() as int) =~= psv);
    }
    rss(all.as_slice())
}

/// Every file of the site, in the order they are written: the home page, the
/// list of posts, the list of tags; each published post's page and fragment,
/// newest first; each tag's page, most used first; the feed; the sitemap.
#[verifier::spinoff_prover]
#[verifier::rlimit(40)]
pub fn outputs(posts: Vec<Post>, theme: &Theme, ctx: Ctx) -> (r: Vec<(String, String)>)
    requires
        all_tags(posts@).len() <= usize::MAX,
    ensures
        exists|tags: Seq<(&str, usize)>| counted(newest_first_spec(published(posts@, ctx.drafts)), tags)
            && files_view(r@) == site_spec(*theme, ctx, newest_first_spec(published(posts@, ctx.drafts)), tags),
{
    let ghost orig = posts@;
    let kept = publish(posts, ctx.drafts);
    proof {
        lemma_published(orig, ctx.drafts);
        lemma_all_tags_sorted(kept@);
        lemma_newest_first(kept@);
    }
    let ps = newest_first(kept);
    let ghost psv = ps@;
    let counts = tag_counts(ps.as_slice());
    let reload: Option<String> = if ctx.live_reload { Some(live_reload()) } else { None };
    let mut files: Vec<(String, String)> = Vec::new();
    let page = home(theme, ps.as_slice(), ctx.year);
    files.push(frame(theme, ctx, &page, &reload));
    let page = blog_index(theme, ps.as_slice());
    files.push(frame(theme, ctx, &page, &reload));
    let page = tags_index(theme, counts.as_slice());
    files.push(frame(theme, ctx, &page, &reload));
    let mut urls: Vec<String> = Vec::new();
    urls.push("/".to_owned());
    urls.push("/blog/".to_owned());
    urls.push("/tags/".to_owned());
    let ghost head = files_view(files@);
    let ghost uhead = crate::xml::strings_view(urls@);
    post_pages(theme, ctx, &ps, &reload, &mut files, &mut urls);
    tag_pages(theme, ctx, &ps, &counts, &reload, &mut files, &mut urls);
    let body = feed(&ps);
    let map = sitemap(urls.as_slice());
    let ghost before = files_view(files@);
    files.push(("rss.xml".to_owned(), body));
    files.push(("sitemap.xml".to_owned(), map));
    proof {
        reveal_strlit("/");
        reveal_strlit("/blog/");
        reveal_strlit("/tags/");
        assert(uhead =~= seq!["/"@, "/blog/"@, "/tags/"@]);
        assert(files_view(files@) =~= before + seq![
            ("rss.xml"@, rss_spec(psv)),
            ("sitemap.xml"@, sitemap_spec(seq!["/"@, "/blog/"@, "/tags/"@] + post_urls(psv) + tag_urls(counts@))),
        ]);
        assert(files_view(files@) =~= site_spec(*theme, ctx, psv, counts@));
        assert(psv == newest_first_spec(published(orig, ctx.drafts)));
        assert(counted(psv, counts@));
    }
    files
}

} // verus!
