use blog::content::Post;
use blog::date::Date;
use blog::fill::Value;
use blog::model::{build, og_image, tag_slug, url_of};
use blog::{Ctx, DESCRIPTION};

#[test]
fn tag_slugs_are_percent_encoded() {
    assert_eq!(tag_slug("computer-science"), "computer-science");
    assert_eq!(tag_slug("c++"), "c%2B%2B");
    assert_eq!(tag_slug("a b"), "a%20b");
    assert_eq!(tag_slug("R&D"), "R%26D");
    assert_eq!(tag_slug("λ"), "%CE%BB");
}

const ROUTES: [(&str, &str); 2] = [
    ("posts", "blog/[slug]/index.html"),
    ("tags", "tag/[slug]/index.html"),
];

#[test]
fn an_item_url_comes_from_the_route_of_its_collection() {
    assert_eq!(url_of(&ROUTES, "posts", "a-post").unwrap(), "/blog/a-post");
    assert_eq!(url_of(&ROUTES, "tags", "c%2B%2B").unwrap(), "/tag/c%2B%2B");
}

#[test]
fn a_collection_with_no_route_is_an_error() {
    let err = url_of(&ROUTES[..1], "tags", "x").unwrap_err();
    assert!(err.contains("each: tags"), "got: {err}");
    let bare = [("posts", "blog/index.html")];
    let err = url_of(&bare, "posts", "x").unwrap_err();
    assert_eq!(err, "blog/index.html: `each: posts` needs a [field] path segment");
}

#[test]
fn the_social_image_sits_next_to_its_page() {
    assert_eq!(og_image("/blog/a"), "/blog/a/og.png");
}

fn post(slug: &str, tags: &[&str]) -> Post {
    Post {
        slug: slug.into(),
        title: slug.into(),
        subtitle: None,
        pub_date: Date::from_ymd(2024, 1, 2).unwrap(),
        tags: tags.iter().map(|t| t.to_string()).collect(),
        description: None,
        draft: false,
        body: String::new(),
        html: "<p>hi</p>".into(),
    }
}

fn site(posts: &[Post]) -> Value<'static> {
    build(posts, "", Ctx::prod(2026), &ROUTES).unwrap()
}

fn text<'a>(v: &'a Value, path: &str) -> &'a str {
    match path.split('.').try_fold(v, |acc, key| acc.get(key)) {
        Some(Value::Text(s)) => s.as_str(),
        other => panic!("{path}: expected text, got {other:?}"),
    }
}

fn first<'a>(v: &'a Value<'a>, key: &str) -> &'a Value<'a> {
    match v.get(key) {
        Some(Value::List(items)) => &items[0],
        other => panic!("{key}: expected a list, got {other:?}"),
    }
}

#[test]
fn urls_come_from_the_route_that_emits_the_page() {
    let posts = [post("a-post", &["c++"])];
    let site = site(&posts);
    assert_eq!(text(first(&site, "posts"), "url"), "/blog/a-post");
    assert_eq!(text(first(&site, "tags"), "url"), "/tag/c%2B%2B");
    // ...and the OG image sits next to the page.
    assert!(text(first(&site, "posts"), "image").ends_with("/blog/a-post/og.png"));
}

#[test]
fn a_page_with_no_route_is_a_build_error_not_a_dead_link() {
    let posts = [post("a", &[])];
    let err = build(&posts, "", Ctx::prod(2026), &ROUTES[..1]).unwrap_err();
    assert!(err.contains("each: tags"), "got: {err}");
}

#[test]
fn posts_are_newest_first_everywhere_they_appear() {
    let dated = |slug: &str, (y, m, d): (i32, u32, u32)| Post {
        pub_date: Date::from_ymd(y, m, d).unwrap(),
        ..post(slug, &["code"])
    };
    let posts = [
        dated("old", (2024, 1, 1)),
        dated("new", (2026, 1, 1)),
        dated("mid", (2025, 1, 1)),
    ];
    let site = site(&posts);
    assert_eq!(text(first(&site, "posts"), "slug"), "new");
    assert_eq!(text(first(&site, "recent"), "slug"), "new");
    assert_eq!(text(first(first(&site, "tags"), "posts"), "slug"), "new");
}

#[test]
fn a_post_without_a_summary_inherits_the_site_description() {
    // The `Nil` trap: an absent description must not shadow the site's, or
    // the drop rule deletes the <meta> element instead of falling back.
    let posts = [post("a", &[])];
    let site = site(&posts);
    assert_eq!(text(first(&site, "posts"), "description"), DESCRIPTION);
    assert_eq!(first(&site, "posts").get("subtitle"), Some(&Value::Nil));
}

#[test]
fn a_tag_carries_its_own_posts_so_a_tag_page_needs_no_query() {
    let posts = [post("a", &["code"]), post("b", &["math"])];
    let site = site(&posts);
    let tag = first(&site, "tags");
    assert_eq!(text(tag, "name"), "code");
    match tag.get("posts") {
        Some(Value::List(items)) => assert_eq!(items.len(), 1),
        other => panic!("expected the tag's own posts, got {other:?}"),
    }
}

#[test]
fn the_site_value_holds_the_facts_dates_and_the_five_most_recent() {
    let dated = |slug: &str, d: u32| Post {
        pub_date: Date::from_ymd(2024, 3, d).unwrap(),
        description: Some("about".into()),
        ..post(slug, &["x", "y"])
    };
    let posts: Vec<Post> = (1..=7).map(|d| dated(&format!("p{d}"), d)).collect();
    let site = build(&posts, "body{}", Ctx::dev(2026), &ROUTES).unwrap();
    assert_eq!(text(&site, "site_title"), blog::TITLE);
    assert_eq!(site.get("year"), Some(&Value::Num(2026)));
    assert_eq!(site.get("age"), Some(&Value::Num(22)));
    assert_eq!(site.get("css"), Some(&Value::Html("body{}".into())));
    assert!(matches!(site.get("live_reload"), Some(Value::Html(_))));
    match site.get("recent") {
        Some(Value::List(items)) => {
            assert_eq!(items.len(), 5);
            assert_eq!(text(&items[0], "slug"), "p7");
            assert_eq!(text(&items[4], "slug"), "p3");
        }
        other => panic!("expected a list, got {other:?}"),
    }
    let p = first(&site, "posts");
    assert_eq!(text(p, "date"), "2024 · 03 · 07");
    assert_eq!(text(p, "description"), "about");
    assert_eq!(
        text(p, "image"),
        format!("{}/blog/p7/og.png", blog::WEBSITE)
    );
    let tag = first(&site, "tags");
    assert_eq!(text(tag, "name"), "x");
    assert_eq!(tag.get("count"), Some(&Value::Num(7)));
    let prod = build(&posts, "", Ctx::prod(2026), &ROUTES).unwrap();
    assert_eq!(prod.get("live_reload"), Some(&Value::Nil));
}
