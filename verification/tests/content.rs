use blog::content::{newest_first, parse, scaffold, tag_counts, Post};
use blog::date::Date;

const CODE_BLOCK: &str = "<pre class=\"hl\" data-lang=\"{{lang}}\"><code>{{code}}</code></pre>";

fn post(slug: &str, date: (i32, u32, u32), tags: &[&str]) -> Post {
    Post {
        slug: slug.to_string(),
        title: slug.to_string(),
        subtitle: None,
        pub_date: Date::from_ymd(date.0, date.1, date.2).unwrap(),
        tags: tags.iter().map(|t| t.to_string()).collect(),
        description: None,
        draft: false,
        body: String::new(),
        html: String::new(),
    }
}

fn err(raw: &str) -> String {
    match parse(raw, "x", CODE_BLOCK) {
        Err(e) => e,
        Ok(p) => panic!("expected an error, got {p:?}"),
    }
}

#[test]
fn a_post_reads_every_key_and_keeps_its_body() {
    let raw = "---\r\ntitle: 'Single'\nsubtitle: \"a \\\"b\\\" c\"\ndescription: plain words  \ndraft: true\npubDate: 2024-03-09\ntags: [rust, \"a, b\", '']\n# a comment\n\n---  \n\r\n\nBody *here*\n";
    let p = parse(raw, "the-slug", CODE_BLOCK).unwrap();
    assert_eq!(p.slug, "the-slug");
    assert_eq!(p.title, "Single");
    assert_eq!(p.subtitle.as_deref(), Some("a \"b\" c"));
    assert_eq!(p.description.as_deref(), Some("plain words"));
    assert!(p.draft);
    assert_eq!(p.pub_date, Date::from_ymd(2024, 3, 9).unwrap());
    assert_eq!(p.tags, ["rust", "a, b"]);
    assert_eq!(p.body, "Body *here*\n");
    assert_eq!(p.html, "<p>Body <em>here</em></p>\n");
    assert_eq!(p.summary(), Some("plain words"));
}

#[test]
fn a_block_list_collects_items_under_its_key() {
    let raw = "---\ntitle: t\npubDate: 2024-01-02\ntags:\n  - one\n  - \"two\"\n---\n";
    let p = parse(raw, "x", CODE_BLOCK).unwrap();
    assert_eq!(p.tags, ["one", "two"]);
    assert_eq!(p.body, "");
    assert_eq!(p.summary(), None);
}

#[test]
fn the_summary_falls_back_to_the_subtitle() {
    let raw = "---\ntitle: t\nsubtitle: sub\npubDate: 2024-01-02\n---\nx";
    assert_eq!(parse(raw, "x", CODE_BLOCK).unwrap().summary(), Some("sub"));
}

#[test]
fn every_frontmatter_error_names_what_is_wrong() {
    assert_eq!(
        err("title: t\n"),
        "missing opening `---` on a line of its own (frontmatter is required)"
    );
    assert_eq!(
        err("---\ntitle: t\n"),
        "missing closing `---` (frontmatter is never terminated)"
    );
    assert_eq!(
        err("---\n  - orphan\n---\n"),
        "list item with no key above it: \"  - orphan\""
    );
    assert_eq!(
        err("---\ntitle: t\n- x\n---\n"),
        "list item with no key above it: \"- x\""
    );
    assert_eq!(err("---\njust words\n---\n"), "expected `key: value`, got \"just words\"");
    assert_eq!(
        err("---\nauthor: me\n---\n"),
        "unknown key `author` (allowed: title, subtitle, description, draft, pubDate, tags)"
    );
    assert_eq!(err("---\ntitle: a\ntitle: b\n---\n"), "duplicate key `title`");
    assert_eq!(err("---\ntags: one\n---\n"), "`tags` must be a list");
    assert_eq!(err("---\ndraft: [a]\n---\n"), "`draft` must be a single value, not a list");
    assert_eq!(err("---\ndraft: yes\n---\n"), "`draft` must be true or false, got \"yes\"");
    assert_eq!(err("---\ntitle: t\n---\n"), "missing `pubDate`");
    assert_eq!(
        err("---\npubDate: 2024-13-01\n---\n"),
        "invalid `pubDate` \"2024-13-01\": input is out of range"
    );
    assert_eq!(err("---\npubDate: 2024-01-02\n---\n"), "missing `title`");
    assert_eq!(
        err("---\ntitle: t\npubDate: 2024-01-02\nsubtitle:\n---\n"),
        "`subtitle` must be a single value, not a list"
    );
}

#[test]
fn scaffolding_escapes_quotes_and_backslashes() {
    assert_eq!(
        scaffold("a\\\"b", "2026-07-28"),
        "---\ntitle: \"a\\\\\\\"b\"\npubDate: 2026-07-28\ntags:\n  - tag1\n# draft: true                 -- built by `ssg dev`, left out of the site\n# subtitle: A short italic subtitle\n# description: Used for RSS and social meta\n---\n\n"
    );
}

#[test]
fn posts_come_newest_first_then_by_slug_and_ties_keep_their_order() {
    let mut a = post("b", (2024, 1, 1), &[]);
    a.title = "first".into();
    let mut b = post("b", (2024, 1, 1), &[]);
    b.title = "second".into();
    let posts = vec![
        post("old", (2023, 5, 5), &[]),
        a,
        post("a", (2024, 1, 1), &[]),
        post("new", (2025, 1, 1), &[]),
        b,
    ];
    let sorted = newest_first(posts);
    let order: Vec<(&str, &str)> = sorted
        .iter()
        .map(|p| (p.slug.as_str(), p.title.as_str()))
        .collect();
    assert_eq!(
        order,
        [("new", "new"), ("a", "a"), ("b", "first"), ("b", "second"), ("old", "old")]
    );
}

#[test]
fn tags_are_counted_most_used_first_then_by_name() {
    let posts = [
        post("a", (2024, 1, 1), &["rust", "web"]),
        post("b", (2024, 1, 2), &["web", "css"]),
        post("c", (2024, 1, 3), &["rust", "web", "zig"]),
    ];
    assert_eq!(
        tag_counts(&posts),
        [("web", 3), ("rust", 2), ("css", 1), ("zig", 1)]
    );
    assert_eq!(tag_counts(&[]), Vec::<(&str, usize)>::new());
}
