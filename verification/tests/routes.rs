use blog::fill::Value;
use blog::routes::{canonical, collections, expand, interpolate, is_partial, load, param_of, render, without_meta, Page};


fn templates(files: &[(&str, &str)]) -> Vec<(String, String)> {
    files
        .iter()
        .map(|(p, s)| (p.to_string(), s.to_string()))
        .collect()
}

#[test]
fn a_templates_path_is_its_output_path() {
    assert_eq!(canonical("index.html"), "/");
    assert_eq!(canonical("blog/index.html"), "/blog");
    assert_eq!(canonical("blog/a-post/index.html"), "/blog/a-post");
    assert_eq!(canonical("tag/c%2B%2B/index.html"), "/tag/c%2B%2B");
}

#[test]
fn dynamic_segments_are_recognised_anywhere_in_the_path() {
    assert_eq!(param_of("blog/[slug]/index.html"), Some("slug"));
    assert_eq!(param_of("blog/index.html"), None);
    assert_eq!(param_of("index.html"), None);
}

#[test]
fn underscored_files_are_partials_not_routes() {
    assert!(is_partial("_layout.html"));
    assert!(is_partial("_post_list.html"));
    assert!(!is_partial("index.html"));
    assert!(!is_partial("blog/[slug]/index.html"));
}

#[test]
fn only_index_files_get_the_layout() {
    let files = templates(&[
        ("index.html", "a"),
        ("tag/[slug]/index.html", "b"),
        ("feed/preview.html", "c"),
        ("_layout.html", "L"),
    ]);
    let t = load(&files).unwrap();
    let layout_of = |out: &str| t.routes.iter().find(|r| r.out == out).unwrap().layout;
    assert!(layout_of("index.html"));
    assert!(layout_of("tag/[slug]/index.html"));
    assert!(!layout_of("feed/preview.html"));
    assert_eq!(t.routes.len(), 3, "the layout is not a route");
    assert_eq!(t.layout, Some("L"));
}

#[test]
fn a_metadata_comment_declares_the_page_and_is_not_copied_to_the_output() {
    let files = templates(&[(
        "blog/[slug]/index.html",
        "<!--\neach: posts\nclass: post\n-->\n<h1>x</h1>",
    )]);
    let t = load(&files).unwrap();
    let route = &t.routes[0];
    assert_eq!(route.each(), Some("posts"));
    assert_eq!(route.meta("class"), Some("post"));

    let site = Value::map(vec![("site_title", Value::text("blog"))]);
    let page = Page {
        out: "blog/a/index.html".to_string(),
        item: None,
    };
    let out = render(route, &t, &site, &page).unwrap();
    assert_eq!(out, "<h1>x</h1>", "the build config must not ship");
}

#[test]
fn an_error_names_the_line_of_the_file_it_is_on() {
    // The metadata block is stripped from the output rather than the input,
    // so what the compiler counts is what the editor shows.
    let files = templates(&[(
        "index.html",
        "<!--\nclass: page\n-->\n<p>ok</p>\n<p data-slot=\"nope\"></p>",
    )]);
    let t = load(&files).unwrap();
    let page = Page {
        out: "index.html".to_string(),
        item: None,
    };
    let site = Value::map(vec![("site_title", Value::text("blog"))]);
    let err = render(&t.routes[0], &t, &site, &page).unwrap_err();
    assert!(err.contains("line 5"), "got: {err}");
}

#[test]
fn a_page_with_no_metadata_is_still_a_page() {
    let files = templates(&[("index.html", "<h1>x</h1>")]);
    let t = load(&files).unwrap();
    assert_eq!(t.routes[0].each(), None);
    assert_eq!(without_meta(t.routes[0].src), "<h1>x</h1>");
}

#[test]
fn two_pages_may_not_claim_one_collection() {
    let each = "<!--\neach: posts\n-->";
    let files = templates(&[
        ("blog/[slug]/index.html", each),
        ("post/[slug]/index.html", each),
    ]);
    let err = collections(&load(&files).unwrap()).unwrap_err();
    assert!(err.contains("already claimed"), "got: {err}");
}

#[test]
fn expansion_fills_the_path_segment_from_each_item() {
    let files = templates(&[("blog/[slug]/index.html", "<!--\neach: posts\n-->\n<p>x</p>")]);
    let t = load(&files).unwrap();
    let site = Value::map(vec![(
        "posts",
        Value::list(vec![
            Value::map(vec![("slug", Value::text("a"))]),
            Value::map(vec![("slug", Value::text("b"))]),
        ]),
    )]);
    let outs: Vec<String> = expand(&t.routes[0], &site)
        .unwrap()
        .into_iter()
        .map(|p| p.out)
        .collect();
    assert_eq!(outs, ["blog/a/index.html", "blog/b/index.html"]);
}

#[test]
fn a_route_and_its_collection_have_to_agree() {
    let site = Value::map(vec![("posts", Value::list(vec![]))]);
    let one = |out: &'static str, src: &'static str| {
        let files = templates(&[(out, src)]);
        let t = load(&files).unwrap();
        expand(&t.routes[0], &site).map(|_| ()).unwrap_err()
    };
    assert!(one("x/[slug]/index.html", "<!--\neach: nope\n-->").contains("no collection"));
    assert!(one("x/index.html", "<!--\neach: posts\n-->").contains("[field] segment"));
    assert!(one("x/[slug]/index.html", "<p>x</p>").contains("no `each:`"));
}

#[test]
fn metadata_interpolates_the_page_scope_and_then_the_site() {
    let site = Value::map(vec![("site_title", Value::text("blog"))]);
    let fields = [("title", Value::text("A post"))];
    assert_eq!(
        interpolate("{title} | {site_title}", &fields, &site).unwrap(),
        "A post | blog"
    );
    assert_eq!(interpolate("about", &fields, &site).unwrap(), "about");
    assert!(interpolate("{nope}", &fields, &site).is_err());
    assert!(interpolate("{title", &fields, &site).is_err());
}
