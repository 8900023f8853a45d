use blog::xml::{attr, cdata, document, render, text, Node};


fn unescape(s: &str) -> String {
    s.replace("&#xD;", "\r")
        .replace("&lt;", "<")
        .replace("&gt;", ">")
        .replace("&amp;", "&")
}

#[test]
fn control_characters_are_stripped_not_escaped() {
    for bad in [
        '\u{0}', '\u{8}', '\u{B}', '\u{C}', '\u{1F}', '\u{FFFE}', '\u{FFFF}',
    ] {
        let input = format!("a{bad}b");
        for got in [
            text(&input).to_string(),
            attr(&input).to_string(),
            cdata(&input).to_string(),
        ] {
            assert!(!got.contains(bad), "{bad:?} survived in {got:?}");
            assert!(got.contains("ab"), "{bad:?} took a neighbour: {got:?}");
        }
    }
}

#[test]
fn legal_characters_the_production_allows_are_kept() {
    for good in ['\t', '\n', '\r', '\u{FFFD}', '\u{1FFFE}', '\u{10FFFF}'] {
        let input = format!("a{good}b");
        assert!(
            cdata(&input).to_string().contains(good),
            "{good:?} should survive CDATA"
        );
    }
    assert_eq!(text("a\tb").to_string(), "a\tb");
    assert_eq!(text("a\nb").to_string(), "a\nb");
}

#[test]
fn text_escapes_exactly_the_characters_section_2_4_requires() {
    assert_eq!(text("a & b").to_string(), "a &amp; b");
    assert_eq!(text("<i>").to_string(), "&lt;i&gt;");
    assert_eq!(text("a\rb").to_string(), "a&#xD;b");
    assert_eq!(
        text(r#"he said "hi" and 'bye'"#).to_string(),
        r#"he said "hi" and 'bye'"#
    );
}

#[test]
fn attribute_values_survive_normalization() {
    assert_eq!(attr("a\tb\nc\rd").to_string(), "a&#x9;b&#xA;c&#xD;d");
    assert_eq!(attr("a b").to_string(), "a b");
    assert_eq!(
        attr(r#"say "hi" & <go>"#).to_string(),
        "say &quot;hi&quot; &amp; &lt;go&gt;"
    );
}

#[test]
fn text_roundtrips_to_the_original_content() {
    for inner in ["", "plain", "a & b", "<p>hi</p>", "&amp;", "a\rb", "\"'"] {
        assert_eq!(unescape(&text(inner).to_string()), inner, "for {inner:?}");
    }
}

#[test]
fn cdata_survives_a_literal_terminator() {
    for inner in ["a ]]> b", "]]>]]>", "trailing ]]>", "]]> leading"] {
        let out = cdata(inner).to_string();
        assert_eq!(
            out.matches("<![CDATA[").count(),
            out.matches("]]>").count(),
            "unbalanced for {inner:?}: {out}"
        );
    }
}

#[test]
fn cdata_roundtrips_to_the_original_content() {
    for inner in ["<p>hi</p>", "a ]]> b", "]]>]]>", "]]>"] {
        let out = cdata(inner).to_string();
        let rejoined: String = out
            .strip_prefix("<![CDATA[")
            .unwrap()
            .strip_suffix("]]>")
            .unwrap()
            .split("]]><![CDATA[")
            .collect();
        assert_eq!(rejoined, inner, "roundtrip failed for {inner:?}");
    }
}

#[test]
fn an_element_with_no_children_is_self_closing() {
    let n = Node::elem("atom:link", vec![("rel", "self".into())], vec![]);
    assert_eq!(render(&n, 0), r#"<atom:link rel="self" />"#);
}

#[test]
fn nested_elements_indent_and_leaf_elements_stay_inline() {
    let url = Node::tag("url", vec![Node::line("loc", "https://x/")]);
    assert_eq!(render(&url, 1), "<url><loc>https://x/</loc></url>");

    let item = Node::tag("item", vec![Node::line("a", "1"), Node::line("b", "2")]);
    assert_eq!(
        render(&item, 2),
        "<item>\n      <a>1</a>\n      <b>2</b>\n    </item>"
    );
}

#[test]
fn a_document_declares_its_version_and_ends_with_a_newline() {
    let doc = document(&Node::line("a", "x"));
    assert_eq!(
        doc,
        "<?xml version=\"1.0\" encoding=\"UTF-8\"?>\n<a>x</a>\n"
    );
}
