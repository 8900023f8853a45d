use blog::assets::{minify, script_path};


#[test]
fn minify_collapses_without_breaking_selectors() {
    assert_eq!(minify("a {\n  color: red;\n}"), "a{color:red}");
    assert_eq!(minify("/* note */\np { margin: 0 }"), "p{margin:0}");
    assert_eq!(minify("h1,\nh2 { top: 0; }"), "h1,h2{top:0}");
}

#[test]
fn minify_keeps_the_spaces_that_carry_meaning() {
    assert_eq!(
        minify("article :not(pre) > code { padding: 1px 5px; }"),
        "article :not(pre) > code{padding:1px 5px}"
    );
    assert_eq!(
        minify("@media (min-width: 768px) { p { top: 0 } }"),
        "@media (min-width:768px){p{top:0}}"
    );
    assert_eq!(
        minify("@font-face { src: url(/a.woff2) format(\"woff2\"); }"),
        "@font-face{src:url(/a.woff2) format(\"woff2\")}"
    );
}

#[test]
fn script_path_tracks_content() {
    assert_eq!(script_path("a"), script_path("a"));
    assert_ne!(script_path("a"), script_path("b"));
    assert!(script_path("a").starts_with("/vendor/app."));
}

#[test]
fn script_path_is_the_fnv1a_hash_in_hex() {
    // FNV-1a of the empty input is its offset basis.
    assert_eq!(script_path(""), "/vendor/app.cbf29ce484222325.js");
    assert_eq!(script_path("a"), "/vendor/app.af63dc4c8601ec8c.js");
}
