use blog::check::{attrs, outside_code};
use blog::clock::year_from_unix_secs;
use blog::dev::{content_type, error_page, live_reload, request_path, resolve, Resolved};
use blog::feeds::{absolutize, cdata, esc_xml, sitemap};
use blog::render::{boostable, esc, fill, fragment_url, post_url, tag_slug, tag_url};
use blog::threads::get_thread;

#[test]
fn template_holes_are_filled_and_a_lone_opener_is_kept() {
    assert_eq!(fill("<p>{{a}} and {{b}}</p>", &[("a", "1"), ("b", "2")]), "<p>1 and 2</p>");
    assert_eq!(fill("no holes", &[]), "no holes");
    assert_eq!(fill("{{a{{b}}", &[("b", "x")]), "{{ax");
}

#[test]
fn render_escapes_five_characters() {
    assert_eq!(esc("<a href=\"x\">it's & co</a>"), "&lt;a href=&quot;x&quot;&gt;it&#39;s &amp; co&lt;/a&gt;");
}

#[test]
fn urls_are_built_from_slugs() {
    assert_eq!(post_url("a"), "/blog/a/");
    assert_eq!(fragment_url("a"), "/blog/a/fragment");
    assert_eq!(tag_url("c++"), "/tag/c%2B%2B/");
    assert_eq!(tag_slug("λ"), "%CE%BB");
    assert!(boostable("/tags/"));
    assert!(!boostable("https://github.com/"));
    assert!(!boostable("/rss.xml"));
}

#[test]
fn feed_text_is_escaped_and_illegal_characters_dropped() {
    assert_eq!(esc_xml("a & 'b' <c>\u{0}"), "a &amp; &apos;b&apos; &lt;c&gt;");
    assert_eq!(cdata("a]]>b"), "<![CDATA[a]]]]><![CDATA[>b]]>");
}

#[test]
fn feed_links_become_absolute_outside_code() {
    assert_eq!(
        absolutize("<a href=\"/x\"><code>href=\"/y\"</code><img src=\"/z\">", "https://s"),
        "<a href=\"https://s/x\"><code>href=\"/y\"</code><img src=\"https://s/z\">"
    );
}

#[test]
fn a_sitemap_lists_every_page() {
    let pages = vec!["/".to_string(), "/blog/a".to_string()];
    assert_eq!(
        sitemap(&pages),
        "<?xml version=\"1.0\" encoding=\"UTF-8\"?>\n<urlset xmlns=\"http://www.sitemaps.org/schemas/sitemap/0.9\"><url><loc>https://vitorsalmeida.com/</loc></url><url><loc>https://vitorsalmeida.com/blog/a</loc></url></urlset>\n"
    );
}

#[test]
fn requests_resolve_to_files_redirects_or_nothing() {
    let files = vec!["index.html".to_string(), "blog/index.html".to_string(), "tags.html".to_string(), "styles.css".to_string()];
    let dirs = vec!["".to_string(), "blog".to_string()];
    assert_eq!(resolve("/", &files, &dirs), Resolved::File("index.html".to_string()));
    assert_eq!(resolve("/blog/?x=1", &files, &dirs), Resolved::File("blog/index.html".to_string()));
    assert_eq!(resolve("/blog", &files, &dirs), Resolved::Redirect("/blog/".to_string()));
    assert_eq!(resolve("/tags", &files, &dirs), Resolved::File("tags.html".to_string()));
    assert_eq!(resolve("/styles.css", &files, &dirs), Resolved::File("styles.css".to_string()));
    assert_eq!(resolve("/../etc/passwd", &files, &dirs), Resolved::NotFound);
    assert_eq!(resolve("/nope", &files, &dirs), Resolved::NotFound);
}

#[test]
fn content_types_follow_the_extension() {
    assert_eq!(content_type("dist/index.html"), "text/html; charset=utf-8");
    assert_eq!(content_type("a/b.JPG"), "application/octet-stream");
    assert_eq!(content_type("a/photo.jpeg"), "image/jpeg");
    assert_eq!(content_type("a/.bashrc"), "application/octet-stream");
    assert_eq!(content_type("a.b/file"), "application/octet-stream");
    assert!(live_reload().contains("/__livereload"));
}

#[test]
fn the_year_follows_the_calendar() {
    assert_eq!(year_from_unix_secs(0), 1970);
    assert_eq!(year_from_unix_secs(31_535_999), 1970);
    assert_eq!(year_from_unix_secs(31_536_000), 1971);
    // 2024-02-29T12:00:00Z
    assert_eq!(year_from_unix_secs(1_709_208_000), 2024);
    // 2025-01-01T00:00:00Z
    assert_eq!(year_from_unix_secs(1_735_689_600), 2025);
}

#[test]
fn a_thread_is_found_by_its_id() {
    assert_eq!(get_thread("isolated-env").unwrap().title, "isolated work environment");
    assert!(get_thread("nope").is_none());
}

#[test]
fn check_reads_attribute_values_and_skips_code() {
    assert_eq!(attrs("<a href=\"/a\"><a href=\"/b\">", "href=\""), vec!["/a".to_string(), "/b".to_string()]);
    assert_eq!(
        outside_code("<p class=\"x\"></p><pre class=\"hl\"><span class=\"com\"></span></pre><i class=\"y\">"),
        "<p class=\"x\"></p><i class=\"y\">"
    );
}

#[test]
fn an_empty_attribute_opening_matches_everywhere() {
    assert_eq!(attrs("a\"b", ""), vec!["a".to_string(), String::new()]);
    assert!(attrs("", "").is_empty());
}

#[test]
fn empty_and_dot_components_are_read_as_the_file_system_reads_them() {
    let files = vec!["index.html".to_string(), "blog/a/index.html".to_string(), "blog/b.html".to_string()];
    let dirs = vec!["".to_string(), "blog".to_string(), "blog/a".to_string()];
    assert_eq!(resolve("/blog//b", &files, &dirs), Resolved::File("blog/b.html".to_string()));
    assert_eq!(resolve("/blog/./b", &files, &dirs), Resolved::File("blog/b.html".to_string()));
    assert_eq!(resolve("/blog//a/", &files, &dirs), Resolved::File("blog/a/index.html".to_string()));
    assert_eq!(resolve("//", &files, &dirs), Resolved::File("index.html".to_string()));
    assert_eq!(resolve("/./blog", &files, &dirs), Resolved::Redirect("/./blog/".to_string()));
}

#[test]
fn a_request_line_names_its_second_word_or_the_root() {
    assert_eq!(request_path("GET /blog/ HTTP/1.1\r\n"), "/blog/");
    assert_eq!(request_path("  GET\t/a%20b  HTTP/1.1"), "/a%20b");
    assert_eq!(request_path("GET\r\n"), "/");
    assert_eq!(request_path(""), "/");
    assert_eq!(request_path("GET /x"), "/x");
}

#[test]
fn a_failed_build_shows_its_message_escaped() {
    let reload = live_reload();
    assert_eq!(
        error_page(None, "a < b"),
        format!("<pre>a &lt; b</pre><script>{reload}</script>")
    );
    assert_eq!(
        error_page(Some("<p>{{message}}</p><script>{{reload}}</script>"), "x & y"),
        format!("<p>x &amp; y</p><script>{reload}</script>")
    );
    assert_eq!(
        error_page(Some("<p>{{message}}</p>{{other}}"), "oops"),
        format!("<pre>oops</pre><script>{reload}</script>")
    );
}
