use blog::check::{defined_classes, problems};
use blog::content::Post;
use blog::date::Date;
use blog::render::Theme;
use blog::site::outputs;
use blog::Ctx;

fn theme() -> Theme {
    let files: Vec<(String, String)> = [
        ("layout.html", "[{{title}}|{{canonical}}|{{year}}]{{reload}}{{body}}"),
        ("reload.html", "<script>{{js}}</script>"),
        ("home.html", "home:{{posts}}"),
        ("listing.html", "{{heading}}:{{items}}"),
        ("post_item.html", "({{url}})"),
        ("link_item.html", "{{href}}"),
        ("link_item_ext.html", "{{href}}"),
        ("article.html", "<h1>{{title}}</h1>{{tags}}{{html}}"),
        ("tag_link.html", "#{{name}}"),
        ("subtitle.html", "{{text}}"),
        ("post.html", "{{article}}"),
        ("tag_item.html", "{{name}}={{count}};"),
    ]
    .iter()
    .map(|(n, t)| (n.to_string(), t.to_string()))
    .collect();
    Theme::load(&files).unwrap()
}

fn post(slug: &str, day: u32, draft: bool, tags: &[&str]) -> Post {
    Post {
        slug: slug.into(),
        title: slug.to_uppercase(),
        subtitle: None,
        pub_date: Date::from_ymd(2024, 5, day).unwrap(),
        tags: tags.iter().map(|t| t.to_string()).collect(),
        description: None,
        draft,
        body: String::new(),
        html: format!("<p>{slug}</p>"),
    }
}

#[test]
fn a_build_writes_every_page_newest_first_and_leaves_drafts_out() {
    let posts = vec![
        post("old", 1, false, &["x"]),
        post("draft", 3, true, &["y"]),
        post("new", 2, false, &["x", "z"]),
    ];
    let files = outputs(posts, &theme(), Ctx::prod(2026));
    let paths: Vec<&str> = files.iter().map(|(p, _)| p.as_str()).collect();
    assert_eq!(
        paths,
        [
            "index.html",
            "blog/index.html",
            "tags/index.html",
            "blog/new/index.html",
            "blog/new/fragment.html",
            "blog/old/index.html",
            "blog/old/fragment.html",
            "tag/x/index.html",
            "tag/z/index.html",
            "rss.xml",
            "sitemap.xml",
        ]
    );
    assert_eq!(files[0].1, "[vitor s. almeida|/|2026]home:(/blog/new/)(/blog/old/)");
    assert_eq!(files[2].1, "[tags | vitor s. almeida|/tags/|2026]tags:x=2;z=1;");
    assert_eq!(files[3].1, "[NEW|/blog/new/|2026]<h1>NEW</h1>#x#z<p>new</p>");
    assert_eq!(files[4].1, "<h1>NEW</h1>#x#z<p>new</p>");
    assert_eq!(files[7].1, "[x|/tag/x/|2026]#x:(/blog/new/)(/blog/old/)");
    assert!(files[10].1.contains("<loc>https://vitorsalmeida.com/tag/z/</loc>"));
    assert!(!files[9].1.contains("DRAFT"));

    let dev = outputs(vec![post("draft", 3, true, &[])], &theme(), Ctx::dev(2026));
    assert_eq!(dev[3].0, "blog/draft/index.html");
    assert!(dev[0].1.contains("<script>(function(){try{new EventSource('/__livereload')"));
}

#[test]
fn check_reports_dead_links_and_undefined_classes_outside_code() {
    let defined = defined_classes(&[".a { x: y } .b, p.c {}".to_string(), "#d .e {}".to_string()]);
    assert_eq!(defined, ["a", "b", "c", "e"]);
    let pages = vec![(
        "index.html".to_string(),
        "<a href=\"/blog/\">x</a><a href=\"/gone/\">y</a><a href=\"//cdn\">z</a><p class=\"a  f\">t</p><pre class=\"hl\"><span class=\"hl-k\">k</span></pre>".to_string(),
    )];
    let files = vec!["index.html".to_string(), "blog/index.html".to_string()];
    let dirs = vec![String::new(), "blog".to_string()];
    assert_eq!(
        problems(&pages, &files, &dirs, &defined),
        [
            "index.html links to /gone/, which was never written",
            "index.html uses `.f`, which no stylesheet defines",
        ]
    );
}
