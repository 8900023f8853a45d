use blog::html::{absolutize, attributes, extent};


const BASE: &str = "https://example.com";

fn abs(html: &str) -> String {
    absolutize(html, BASE)
}

#[test]
fn absolutize_rewrites_root_relative_urls_only() {
    assert_eq!(
        abs(r#"<img src="/introbigo/bigo.jpg" /><a href="/blog/x">x</a>"#),
        format!(r#"<img src="{BASE}/introbigo/bigo.jpg" /><a href="{BASE}/blog/x">x</a>"#)
    );

    let untouched = r#"<img src="//cdn.example.com/pic.png" /><img src="https://x.com/a.png" /><img src="img/b.png" />"#;
    assert_eq!(abs(untouched), untouched);
}

#[test]
fn absolutize_ignores_urls_inside_an_inline_code_span() {
    let html = r#"<p><code>&lt;img src="/x"&gt;</code></p>"#;
    assert_eq!(abs(html), html);

    let json = r#"<p><code>{ "src": "/x" }</code></p>"#;
    assert_eq!(abs(json), json);
}

#[test]
fn absolutize_handles_every_attribute_quoting_form() {
    assert_eq!(abs(r#"<a href="/a">"#), format!(r#"<a href="{BASE}/a">"#));
    assert_eq!(abs("<a href='/a'>"), format!("<a href='{BASE}/a'>"));
    assert_eq!(abs("<a href=/a>"), format!("<a href={BASE}/a>"));
    assert_eq!(abs("<a href = \"/a\">"), format!("<a href = \"{BASE}/a\">"));
}

#[test]
fn absolutize_rewrites_every_url_attribute_it_claims_to() {
    assert_eq!(
        abs(r#"<video src="/a.mp4" poster="/p.jpg"></video>"#),
        format!(r#"<video src="{BASE}/a.mp4" poster="{BASE}/p.jpg"></video>"#)
    );
    assert_eq!(
        abs(r#"<blockquote cite="/src">q</blockquote>"#),
        format!(r#"<blockquote cite="{BASE}/src">q</blockquote>"#)
    );
}

#[test]
fn srcset_is_left_alone_on_purpose() {
    let html = r#"<img src="/a.png" srcset="/a.png 1x, /b.png 2x">"#;
    assert_eq!(
        abs(html),
        format!(r#"<img src="{BASE}/a.png" srcset="/a.png 1x, /b.png 2x">"#)
    );
}

#[test]
fn markup_inside_rawtext_elements_is_not_markup() {
    let html = r#"<script>var a = '<img src="/x">';</script><img src="/y">"#;
    assert_eq!(
        abs(html),
        format!(r#"<script>var a = '<img src="/x">';</script><img src="{BASE}/y">"#)
    );
}

#[test]
fn comments_and_declarations_pass_through_untouched() {
    let html = r#"<!-- <img src="/x"> --><!DOCTYPE html><img src="/y">"#;
    assert_eq!(
        abs(html),
        format!(r#"<!-- <img src="/x"> --><!DOCTYPE html><img src="{BASE}/y">"#)
    );
}

#[test]
fn a_bare_angle_bracket_is_text_not_a_tag() {
    for html in ["a < b", "1<2 and 3>2", "<3"] {
        assert_eq!(abs(html), html, "for {html:?}");
    }
}

#[test]
fn a_greater_than_inside_an_attribute_does_not_end_the_tag() {
    assert_eq!(
        abs(r#"<a title="a > b" href="/x">t</a>"#),
        format!(r#"<a title="a > b" href="{BASE}/x">t</a>"#)
    );
}

/// The source between an element's `>` and its matching `</`.
fn content(src: &str) -> &str {
    let e = extent(src, src.find('<').unwrap()).unwrap();
    &src[e.open_end..e.content_end]
}

#[test]
fn extent_finds_the_matching_close_not_the_first_one() {
    assert_eq!(
        content("<ul><li>a</li><li>b</li></ul>"),
        "<li>a</li><li>b</li>"
    );
    assert_eq!(content("<div><div>in</div></div>"), "<div>in</div>");
    assert_eq!(content("<p>plain</p>"), "plain");
}

#[test]
fn extent_consumes_the_close_tag() {
    let src = "<p>x</p>tail";
    assert_eq!(&src[extent(src, 0).unwrap().end..], "tail");
}

#[test]
fn a_void_or_self_closing_element_has_no_content() {
    for src in ["<meta name=\"a\" />", "<br>", "<img src=\"/x\">", "<hr/>"] {
        let e = extent(src, 0).unwrap();
        assert_eq!(e.open_end, e.content_end, "for {src:?}");
        assert_eq!(e.end, src.len(), "for {src:?}");
    }
    // A trailing slash inside an attribute value does not self-close a tag.
    assert_eq!(content("<a href=\"/blog/\">t</a>"), "t");
}

#[test]
fn a_tag_inside_rawtext_does_not_count_toward_depth() {
    // The inline theme script contains braces and quotes, and `title` shows
    // up in both the head and the templates.
    assert_eq!(
        content("<script>var a = '</div>';</script>"),
        "var a = '</div>';"
    );
    assert_eq!(content("<title>a > b</title>"), "a > b");
    assert_eq!(
        content("<div><script>'<div>'</script></div>"),
        "<script>'<div>'</script>"
    );
}

#[test]
fn extent_ignores_comments_and_declarations() {
    assert_eq!(content("<div><!-- </div> -->x</div>"), "<!-- </div> -->x");
}

#[test]
fn an_unclosed_element_has_no_extent() {
    assert_eq!(extent("<div>x", 0), None);
    assert_eq!(
        extent("</div>", 0),
        None,
        "a close tag is not an opening tag"
    );
}

#[test]
fn attribute_spans_cover_the_whole_pair() {
    let tag = r#"<a data-slot="title" href="/x">"#;
    let attrs = attributes(tag);
    let span = |n: &str| {
        let a = attrs.iter().find(|a| a.name == n).unwrap();
        &tag[a.span.0..a.span.1]
    };
    assert_eq!(span("data-slot"), r#"data-slot="title""#);
    assert_eq!(span("href"), r#"href="/x""#);
}

#[test]
fn output_is_unchanged_when_there_is_nothing_to_rewrite() {
    for html in ["", "<p>plain</p>", "<a href=\"https://x/\">x</a>"] {
        assert_eq!(abs(html), html, "for {html:?}");
    }
}

#[test]
fn an_empty_base_changes_nothing() {
    for html in [
        r#"<img src="/a.png" /><a href="/blog/x">x</a>"#,
        r#"<video poster="/p.jpg" src="/v.mp4"></video><script>"/x"</script>"#,
        "",
    ] {
        assert_eq!(absolutize(html, ""), html, "for {html:?}");
    }
}
