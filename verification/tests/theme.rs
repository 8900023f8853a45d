use blog::content::Post;
use blog::date::Date;
use blog::feeds::rss;
use blog::render::{blog_index, home, layout, post_fragment, post_page, tag_page, tags_index, Page, Theme};

fn files() -> Vec<(String, String)> {
    [
        ("layout.html", "<title>{{title}}</title><meta {{description}}><a {{canonical}}>{{site_title}} by {{author}} @{{website}} {{year}}</a>{{reload}}<main>{{body}}</main>"),
        ("reload.html", "<script>{{js}}</script>"),
        ("home.html", "<h1>{{title}}</h1> {{age}} <ul>{{links}}</ul><ol>{{posts}}</ol>"),
        ("listing.html", "<a href=\"{{back_url}}\">{{back_label}}</a><h2>{{heading}}</h2><ul class=\"{{class}}\">{{items}}</ul>"),
        ("post_item.html", "<li>{{date}} <a href=\"{{url}}\" data-fragment=\"{{fragment}}\">{{title}}</a></li>"),
        ("link_item.html", "<a href=\"{{href}}\" boost>{{name}}</a>"),
        ("link_item_ext.html", "<a href=\"{{href}}\" rel=\"me\">{{name}}</a>"),
        ("article.html", "<h1>{{title}}</h1>{{subtitle}}<time>{{date}}</time>{{tags}}{{html}}"),
        ("tag_link.html", "<a href=\"{{url}}\">#{{name}}</a>"),
        ("subtitle.html", "<p>{{text}}</p>"),
        ("post.html", "<p>{{author}}</p>{{article}}"),
        ("tag_item.html", "<li><a href=\"{{url}}\">{{name}}</a> {{count}}</li>"),
    ]
    .iter()
    .map(|(n, t)| (n.to_string(), t.to_string()))
    .collect()
}

fn post(slug: &str, day: u32, tags: &[&str]) -> Post {
    Post {
        slug: slug.into(),
        title: format!("{slug} & more"),
        subtitle: None,
        pub_date: Date::from_ymd(2024, 1, day).unwrap(),
        tags: tags.iter().map(|t| t.to_string()).collect(),
        description: None,
        draft: false,
        body: String::new(),
        html: "<p>hi</p>".into(),
    }
}

#[test]
fn a_theme_needs_every_template_and_only_the_holes_its_page_fills() {
    assert!(Theme::load(&files()).is_ok());
    let mut missing = files();
    missing.remove(3);
    assert_eq!(Theme::load(&missing).err().unwrap(), "missing template listing.html");
    let mut extra = files();
    extra[1].1 = "<script>{{js}}{{oops}}</script>".into();
    assert_eq!(
        Theme::load(&extra).err().unwrap(),
        "reload.html names a hole its page does not fill"
    );
}

#[test]
fn the_layout_frames_a_page_and_adds_the_reload_script_in_development() {
    let theme = Theme::load(&files()).unwrap();
    let page = Page { title: "a<b", description: "d", canonical: "/x/", body: "<p>b</p>".into() };
    assert_eq!(
        layout(&theme, &page, 2026, None),
        "<title>a&lt;b</title><meta d><a /x/>vitor s. almeida by vitor s. almeida @https://vitorsalmeida.com 2026</a><main><p>b</p></main>"
    );
    assert_eq!(
        layout(&theme, &page, 2026, Some("go()")),
        "<title>a&lt;b</title><meta d><a /x/>vitor s. almeida by vitor s. almeida @https://vitorsalmeida.com 2026</a><script>go()</script><main><p>b</p></main>"
    );
}

#[test]
fn the_home_page_lists_the_links_and_the_five_newest_posts() {
    let theme = Theme::load(&files()).unwrap();
    let posts: Vec<Post> = (1..=6).rev().map(|d| post(&format!("p{d}"), d, &[])).collect();
    let page = home(&theme, &posts, 2026);
    assert_eq!(page.title, blog::TITLE);
    assert_eq!(page.canonical, "/");
    assert!(page.body.starts_with("<h1>vitor s. almeida</h1> 22 <ul><a href=\"https://github.com/vitorsouzaalmeida/\" rel=\"me\">github</a><a href=\"https://www.linkedin.com/in/vitorsalmeida/\" rel=\"me\">linkedin</a><a href=\"/tags/\" boost>tags</a><a href=\"/rss.xml\" rel=\"me\">rss</a></ul><ol>"));
    assert!(page.body.contains("<li>2024 · 01 · 06 <a href=\"/blog/p6/\" data-fragment=\"/blog/p6/fragment\">p6 &amp; more</a></li>"));
    assert!(page.body.contains("p2 &amp; more"));
    assert!(!page.body.contains("p1 &amp; more"));
    let index = blog_index(&theme, &posts);
    assert_eq!(index.canonical, "/blog/");
    assert!(index.body.starts_with("<a href=\"/\">vitor s. almeida</a><h2>all posts</h2><ul class=\"posts\"><li>"));
    assert!(index.body.contains("p1 &amp; more"));
}

#[test]
fn a_post_page_holds_its_article_and_its_summary() {
    let theme = Theme::load(&files()).unwrap();
    let mut p = post("a", 2, &["c++", "web"]);
    p.subtitle = Some("sub <it>".into());
    let page = post_page(&theme, &p, "/blog/a/");
    assert_eq!(page.title, "a & more");
    assert_eq!(page.description, "sub <it>");
    let article = "<h1>a &amp; more</h1><p>sub &lt;it&gt;</p><time>2024 · 01 · 02</time><a href=\"/tag/c%2B%2B/\">#c++</a><a href=\"/tag/web/\">#web</a><p>hi</p>";
    assert_eq!(page.body, format!("<p>vitor s. almeida</p>{article}"));
    assert_eq!(post_fragment(&theme, &p), article);
}

#[test]
fn the_tag_pages_list_counts_and_posts() {
    let theme = Theme::load(&files()).unwrap();
    let index = tags_index(&theme, &[("web", 2), ("c++", 1)]);
    assert_eq!(index.title, "tags | vitor s. almeida");
    assert_eq!(
        index.body,
        "<a href=\"/\">vitor s. almeida</a><h2>tags</h2><ul class=\"links\"><li><a href=\"/tag/web/\">web</a> 2</li><li><a href=\"/tag/c%2B%2B/\">c++</a> 1</li></ul>"
    );
    let a = post("a", 2, &["web"]);
    let page = tag_page(&theme, "<web>", &[&a], "/tag/web/");
    assert_eq!(page.title, "<web>");
    assert!(page.body.starts_with("<a href=\"/tags/\">tags</a><h2>#&lt;web&gt;</h2><ul class=\"posts\"><li>"));
}

#[test]
fn a_feed_item_carries_the_post_with_absolute_links() {
    let mut p = post("a", 2, &[]);
    p.title = "A & B".into();
    p.description = Some("d<".into());
    p.html = "<a href=\"/x\">y</a><code>href=\"/z\"</code>".into();
    let feed = rss(&[&p]);
    assert!(feed.starts_with("<?xml version=\"1.0\" encoding=\"UTF-8\"?>\n<rss version=\"2.0\""));
    assert!(feed.contains("<item><title>A &amp; B</title><link>https://vitorsalmeida.com/blog/a/</link><guid isPermaLink=\"true\">https://vitorsalmeida.com/blog/a/</guid><pubDate>Tue, 02 Jan 2024 00:00:00 GMT</pubDate><description>d&lt;</description><content:encoded><![CDATA[<a href=\"https://vitorsalmeida.com/x\">y</a><code>href=\"/z\"</code>]]></content:encoded></item>"));
    assert!(feed.ends_with("</item></channel></rss>\n"));
}
