use blog::css::{check, scan, Error};
use blog::fill::line_at;
use blog::html::{attributes, extent, tag_end};

#[test]
fn line_at_counts_lines_before_a_byte_offset() {
    assert_eq!(line_at("a\nb", 1), 1);
    assert_eq!(line_at("a\nb", 2), 2);
    assert_eq!(line_at("a\nb", 99), 2);
    assert_eq!(line_at("é\nb", 2), 1);
    assert_eq!(line_at("é\nb", 3), 2);
}

#[test]
fn attribute_spans_are_byte_offsets() {
    let tag = r#"<p x="é" y="z">"#;
    let attrs = attributes(tag);
    assert_eq!(attrs.len(), 2);
    assert_eq!(attrs[1].name, "y");
    assert_eq!(attrs[1].span, (10, 15));
    assert!(tag[attrs[1].span.0..attrs[1].span.1].starts_with("y"));
    assert_eq!(attrs[0].value, Some((6, 8)));
    assert_eq!(&tag[6..8], "é");
}

#[test]
fn extents_are_byte_offsets() {
    let src = "<p>é</p>";
    let e = extent(src, 0).unwrap();
    assert_eq!((e.open_end, e.content_end, e.end), (3, 5, 9));
    assert_eq!(&src[e.content_end..e.end], "</p>");
    assert!(extent("é<p>x</p>", 1).is_none());
    assert_eq!(extent("é<p>x</p>", 2).unwrap().end, 10);
}

#[test]
fn a_tag_ends_at_a_byte_offset() {
    let tag = "<p title=\"é\">x";
    assert_eq!(tag_end(tag), "<p title=\"é\">".len());
}

#[test]
fn css_offsets_are_byte_offsets() {
    assert_eq!(check("é{top:0"), Err((Error::UnclosedBlock, 2)));
    let offsets: Vec<usize> = scan("é a").iter().map(|(_, at)| *at).collect();
    assert_eq!(offsets, vec![0, 2, 3]);
}
