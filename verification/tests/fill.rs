use blog::fill::{esc, render, Error, Src, Value};

fn nothing() -> Value<'static> {
    Value::Dict(Vec::new())
}

fn run(text: &str, root: &Value) -> Result<String, Error> {
    render(
        Src {
            name: "t.html",
            text,
        },
        root,
        &nothing(),
        &[],
    )
}

fn ok(text: &str, root: &Value) -> String {
    run(text, root).unwrap()
}

fn root<'a>(entries: Vec<(&'a str, Value<'a>)>) -> Value<'a> {
    Value::map(entries)
}

#[test]
fn escaping() {
    assert_eq!(
        esc("a & b < c > \"d\""),
        "a &amp; b &lt; c &gt; &quot;d&quot;"
    );
    // Deliberate: every attribute we emit is double-quoted, and XML text
    // does not need &apos;.
    assert_eq!(esc("it's"), "it's");
}

#[test]
fn a_slot_is_escaped_and_data_html_is_not() {
    let v = root(vec![
        ("t", Value::text("a & <b>")),
        ("h", Value::html("<em>hi</em>")),
    ]);
    assert_eq!(
        ok(r#"<p data-slot="t"></p>"#, &v),
        "<p>a &amp; &lt;b&gt;</p>"
    );
    assert_eq!(ok(r#"<p data-html="h"></p>"#, &v), "<p><em>hi</em></p>");
}

#[test]
fn a_slot_replaces_whatever_placeholder_the_file_held() {
    // The point of the design: the file is viewable HTML on its own.
    let v = root(vec![("title", Value::text("real"))]);
    assert_eq!(
        ok(r#"<h1 data-slot="title">Example headline</h1>"#, &v),
        "<h1>real</h1>"
    );
}

#[test]
fn markup_cannot_be_emitted_by_an_escaping_slot() {
    let v = root(vec![("h", Value::html("<em>hi</em>"))]);
    let e = run("x\n<p data-slot=\"h\"></p>", &v).unwrap_err();
    assert_eq!(e.line, 2);
    assert!(e.msg.contains("is markup"), "got: {}", e.msg);
    assert!(
        e.msg.contains("data-html=\"h\""),
        "should show the fix: {}",
        e.msg
    );
}

#[test]
fn an_unknown_field_is_an_error_not_a_blank() {
    let v = root(vec![("title", Value::text("x"))]);
    let e = run("<p>one</p>\n<p data-slot=\"titel\"></p>", &v).unwrap_err();
    assert_eq!(e.line, 2);
    assert!(e.msg.contains("titel"), "got: {}", e.msg);
    assert_eq!(e.file, "t.html");
}

#[test]
fn a_nil_binding_removes_the_element() {
    let v = root(vec![("subtitle", Value::Nil), ("title", Value::text("t"))]);
    assert_eq!(
        ok(
            r#"<h1 data-slot="title"></h1><p data-slot="subtitle"></p>"#,
            &v
        ),
        "<h1>t</h1>"
    );
    // ...including everything nested inside it.
    assert_eq!(
        ok(r#"<div data-html="subtitle"><span>gone</span></div>"#, &v),
        ""
    );
}

#[test]
fn data_when_keeps_or_drops_a_container_that_binds_nothing_else() {
    let box_ = r#"<div class="tag-box" data-when="tag"><p>filed under something</p></div>"#;
    assert_eq!(
        ok(
            box_,
            &root(vec![("tag", Value::map(vec![("id", Value::text("t"))]))])
        ),
        r#"<div class="tag-box"><p>filed under something</p></div>"#
    );
    assert_eq!(ok(box_, &root(vec![("tag", Value::Nil)])), "");
    // It never emits its value, so binding a map is not an error.
    assert!(run(box_, &root(vec![("tag", Value::list(vec![Value::Num(1)]))])).is_ok());
}

#[test]
fn markers_are_stripped_from_the_output() {
    let v = root(vec![("t", Value::text("x")), ("u", Value::text("/p"))]);
    assert_eq!(
        ok(r#"<a class="k" data-slot="t" data-attr-href="u"></a>"#, &v),
        r#"<a class="k" href="/p">x</a>"#
    );
    // The only attribute left is a real one, in its original position.
    assert!(!ok(r#"<i data-slot="t"></i>"#, &v).contains("data-"));
}

#[test]
fn data_attr_replaces_an_existing_value_and_appends_a_missing_one() {
    let v = root(vec![("u", Value::text("/x")), ("c", Value::text("home"))]);
    assert_eq!(
        ok(r#"<a href="/placeholder" data-attr-href="u">t</a>"#, &v),
        r#"<a href="/x">t</a>"#
    );
    assert_eq!(
        ok(r#"<body data-attr-class="c">b</body>"#, &v),
        r#"<body class="home">b</body>"#
    );
    // Void and self-closing tags keep their shape.
    assert_eq!(
        ok(r#"<meta name="d" data-attr-content="c" />"#, &v),
        r#"<meta name="d" content="home" />"#
    );
}

#[test]
fn an_attribute_value_is_escaped() {
    let v = root(vec![("u", Value::text(r#"/a"b&c"#))]);
    assert_eq!(
        ok(r#"<a data-attr-href="u">t</a>"#, &v),
        r#"<a href="/a&quot;b&amp;c">t</a>"#
    );
}

#[test]
fn each_clones_the_first_child_and_scopes_to_the_item() {
    let v = root(vec![
        ("site", Value::text("blog")),
        (
            "posts",
            Value::list(vec![
                Value::map(vec![("title", Value::text("a"))]),
                Value::map(vec![("title", Value::text("b"))]),
            ]),
        ),
    ]);
    // The prototype still sees the page scope, and surrounding whitespace
    // is template layout rather than output.
    assert_eq!(
        ok(
            "<ul data-each=\"posts\">\n  <li data-slot=\"title\"></li>\n</ul>",
            &v
        ),
        "<ul><li>a</li><li>b</li></ul>"
    );
    assert_eq!(
        ok(
            r#"<ul data-each="posts"><li data-slot="site"></li></ul>"#,
            &v
        ),
        "<ul><li>blog</li><li>blog</li></ul>"
    );
}

#[test]
fn each_over_an_empty_list_removes_the_element() {
    let v = root(vec![("posts", Value::List(Vec::new()))]);
    assert_eq!(ok(r#"<ul data-each="posts"><li>x</li></ul>"#, &v), "");
}

#[test]
fn the_drop_rule_applies_inside_a_repeated_item() {
    let item = |t: &'static str, tag: Value<'static>| {
        Value::map(vec![("t", Value::text(t)), ("tag", tag)])
    };
    let v = root(vec![(
        "xs",
        Value::list(vec![
            item("a", Value::map(vec![("id", Value::text("z"))])),
            item("b", Value::Nil),
        ]),
    )]);
    assert_eq!(
        ok(
            r#"<ul data-each="xs"><li data-slot="t"><a data-attr-href="tag.id"></a></li></ul>"#,
            &v
        ),
        "<ul><li>a</li><li>b</li></ul>",
        "a slot writes the content, so the nested anchor is replaced either way"
    );
    assert_eq!(
        ok(
            r#"<ul data-each="xs"><li><a data-slot="tag.id"></a></li></ul>"#,
            &v
        ),
        "<ul><li><a>z</a></li><li></li></ul>",
        "the untagged item drops only the anchor"
    );
}

#[test]
fn dotted_paths_walk_into_maps_and_stop_at_nil() {
    let v = root(vec![
        (
            "tag",
            Value::map(vec![("name", Value::text("t")), ("count", Value::num(2))]),
        ),
        ("none", Value::Nil),
    ]);
    assert_eq!(
        ok(
            r#"<p data-slot="tag.name"></p><i data-slot="tag.count"></i>"#,
            &v
        ),
        "<p>t</p><i>2</i>"
    );
    // A typo under a real map is still an error...
    assert!(run(r#"<p data-slot="tag.nope"></p>"#, &v).is_err());
    // ...but a path through a Nil is Nil, which drops the element.
    assert_eq!(ok(r#"<p data-slot="none.url"></p>"#, &v), "");
}

#[test]
fn a_collection_has_no_text_form_and_a_scalar_is_not_a_list() {
    let v = root(vec![("xs", Value::list(vec![Value::Num(1)])), ("n", Value::Num(1))]);
    assert!(run(r#"<p data-slot="xs"></p>"#, &v)
        .unwrap_err()
        .msg
        .contains("collection"));
    assert!(run(r#"<ul data-each="n"><li>x</li></ul>"#, &v)
        .unwrap_err()
        .msg
        .contains("not a list"));
}

#[test]
fn an_include_replaces_its_element_and_renders_in_the_callers_scope() {
    let v = root(vec![(
        "posts",
        Value::list(vec![
            Value::map(vec![("title", Value::text("a"))]),
            Value::map(vec![("title", Value::text("b"))]),
        ]),
    )]);
    let inc = [(
        "_list.html",
        r#"<ul data-each="posts"><li data-slot="title"></li></ul>"#,
    )];
    let out = render(
        Src {
            name: "t.html",
            text: r#"<main><div data-include="_list.html"></div></main>"#,
        },
        &v,
        &nothing(),
        &inc,
    )
    .unwrap();
    // The placeholder element is gone, not merely emptied: the fragment has
    // to start with the list itself.
    assert_eq!(out, "<main><ul><li>a</li><li>b</li></ul></main>");
}

#[test]
fn a_missing_include_is_an_error() {
    let e = run(
        "<p>a</p>\n<div data-include=\"_nope.html\"></div>",
        &root(vec![]),
    )
    .unwrap_err();
    assert_eq!(e.line, 2);
    assert!(e.msg.contains("_nope.html"), "got: {}", e.msg);
}

#[test]
fn an_include_cycle_is_caught_rather_than_overflowing_the_stack() {
    let inc = [("_a.html", r#"<div data-include="_a.html"></div>"#)];
    let e = render(
        Src {
            name: "t.html",
            text: r#"<div data-include="_a.html"></div>"#,
        },
        &root(vec![]),
        &nothing(),
        &inc,
    )
    .unwrap_err();
    assert!(e.msg.contains("cycle"), "got: {}", e.msg);
    assert_eq!(e.file, "_a.html", "should name the file that recurses");
}

#[test]
fn an_error_inside_an_include_names_the_include() {
    let inc = [("_a.html", "<p>ok</p>\n<p data-slot=\"nope\"></p>")];
    let e = render(
        Src {
            name: "page.html",
            text: r#"<div data-include="_a.html"></div>"#,
        },
        &root(vec![]),
        &nothing(),
        &inc,
    )
    .unwrap_err();
    assert_eq!(e.file, "_a.html");
    assert_eq!(e.line, 2);
}

#[test]
fn rawtext_is_copied_through_untouched() {
    // The inline theme script is full of braces, quotes and `<`.
    let script = r#"<script>if(a<b){var s='<div data-slot="x">'}</script>"#;
    assert_eq!(ok(script, &root(vec![])), script);
    assert_eq!(
        ok("<style>a{b:c}</style>", &root(vec![])),
        "<style>a{b:c}</style>"
    );
}

#[test]
fn a_marker_on_a_rawtext_element_still_fills_it() {
    let v = root(vec![("css", Value::html("a{b:c}")), ("js", Value::Nil)]);
    assert_eq!(
        ok(r#"<style data-html="css"></style>"#, &v),
        "<style>a{b:c}</style>"
    );
    // The dev-only live-reload script, absent in a production build.
    assert_eq!(ok(r#"<script data-html="js"></script>"#, &v), "");
}

#[test]
fn unmarked_markup_passes_through_byte_for_byte() {
    for src in [
        "<!doctype html>\n<html><body><p>hi</p></body></html>",
        "<!-- a comment --><p>x</p>",
        "a < b and 1<2",
        "<p>plain</p>",
    ] {
        assert_eq!(ok(src, &root(vec![])), src, "for {src:?}");
    }
}

#[test]
fn multibyte_text_does_not_split_a_character() {
    let v = root(vec![("a", Value::text("λ"))]);
    assert_eq!(
        ok("λ → <p data-slot=\"a\"></p> · ×", &v),
        "λ → <p>λ</p> · ×"
    );
}

#[test]
fn a_page_shadows_the_site_and_falls_back_to_it() {
    let site = root(vec![
        ("title", Value::text("the site")),
        ("author", Value::text("me")),
    ]);
    let page = root(vec![("title", Value::text("this page"))]);
    let text = r#"<h1 data-slot="title"></h1><p data-slot="author"></p>"#;
    let out = render(
        Src {
            name: "t.html",
            text,
        },
        &page,
        &site,
        &[],
    )
    .unwrap();
    assert_eq!(out, "<h1>this page</h1><p>me</p>");
}

#[test]
fn the_prototype_is_the_first_child_element_whatever_precedes_it() {
    let v = root(vec![(
        "posts",
        Value::list(vec![Value::map(vec![("title", Value::text("a"))])]),
    )]);
    assert_eq!(
        ok(r#"<ul data-each="posts"><!-- row --><li data-slot="title"></li></ul>"#, &v),
        "<ul><li>a</li></ul>"
    );
    assert_eq!(
        ok(r#"<ul data-each="posts">text <!-- <b> --><li data-slot="title"></li></ul>"#, &v),
        "<ul><li>a</li></ul>"
    );
}
