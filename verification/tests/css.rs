use std::borrow::Cow;

use blog::css::{check, minify, rules, selector_classes, selectors, serialize, tokenize, unescape, Error, Token};


fn kinds(css: &str) -> Vec<Token<'_>> {
    tokenize(css)
}

#[test]
fn whitespace_inside_a_string_literal_is_preserved() {
    for css in [
        r#"a{content:"a, b"}"#,
        r#"a{content:"a  b"}"#,
        r#"a{font-family:"JetBrains Mono"}"#,
        r#"a{content:"x; y: z"}"#,
    ] {
        assert_eq!(minify(css), css, "mangled {css:?}");
    }
}

#[test]
fn a_comment_delimiter_inside_a_string_is_not_a_comment() {
    assert_eq!(minify(r#"a{content:"/* x */"}"#), r#"a{content:"/* x */"}"#);
    assert_eq!(
        minify(r#"a{background:url(/a/*b.png)}"#),
        r#"a{background:url(/a/*b.png)}"#
    );
}

#[test]
fn an_unterminated_comment_is_a_build_error_not_silent_data_loss() {
    assert_eq!(
        check("/* oops\np{top:0}").map_err(|(e, _)| e),
        Err(Error::UnterminatedComment)
    );
    assert_eq!(check("a{top:0}/* fine */").map_err(|(e, _)| e), Ok(()));
}

#[test]
fn an_unclosed_block_or_string_is_a_build_error() {
    assert_eq!(
        check("a{top:0").map_err(|(e, _)| e),
        Err(Error::UnclosedBlock)
    );
    assert_eq!(
        check("a{content:\"x}").map_err(|(e, _)| e),
        Err(Error::UnterminatedString)
    );
    assert_eq!(check("a{top:0}").map_err(|(e, _)| e), Ok(()));
    assert_eq!(check("a{top:0}\nb{left:0"), Err((Error::UnclosedBlock, 10)));
}

#[test]
fn nested_at_rules_do_not_break_rule_boundaries() {
    let toks = kinds("@media (min-width:1px){a{top:0}b{top:1}}c{top:2}");
    let rs = rules(&toks);
    assert_eq!(rs.len(), 2, "expected the @media and the trailing rule");
    assert!(rs[0].is_at_rule());
    assert_eq!(rules(rs[0].block.unwrap()).len(), 2, "inner rules");
    assert_eq!(serialize(rs[1].prelude), "c");
}

#[test]
fn a_brace_inside_a_string_or_url_does_not_open_a_block() {
    for css in [r#"a{content:"}"}"#, r#"a{background:url(a}b)}"#] {
        let toks = kinds(css);
        assert_eq!(rules(&toks).len(), 1, "for {css:?}");
        assert_eq!(check(css).map_err(|(e, _)| e), Ok(()), "for {css:?}");
    }
}

#[test]
fn a_string_may_not_contain_a_raw_newline() {
    assert!(matches!(kinds("\"a\nb\"")[0], Token::BadStr(_)));
    assert!(matches!(kinds("\"a b\"")[0], Token::Str(_)));
    assert!(matches!(kinds("\"a\\\nb\"")[0], Token::Str(_)));
}

#[test]
fn an_escaped_quote_does_not_end_a_string() {
    assert_eq!(kinds(r#""a\"b""#), [Token::Str(r#""a\"b""#)]);
}

#[test]
fn url_is_a_token_but_url_with_a_quote_is_a_function() {
    assert_eq!(kinds("url(/a.woff2)"), [Token::Url("url(/a.woff2)")]);
    assert_eq!(
        kinds(r#"url("/a")"#),
        [
            Token::Function("url("),
            Token::Str(r#""/a""#),
            Token::CloseParen
        ]
    );
}

#[test]
fn numbers_and_unicode_ranges_round_trip_byte_for_byte() {
    for src in [
        "+0000",
        "-00FF",
        "14.5px",
        ".5",
        "1e3",
        "-.5em",
        "100%",
        "U+0000-00FF, U+0131, U+02BB-02BC",
        "--paper",
        "-webkit-box",
        "\\32 x",
    ] {
        let out: String = tokenize(src).iter().map(|t| t.raw().to_string()).collect();
        assert_eq!(out, src, "did not round-trip");
    }
}

#[test]
fn escapes_are_unescaped_for_matching_but_never_for_output() {
    assert_eq!(unescape("characterclass\\23 "), "characterclass#");
    assert_eq!(unescape("c\\2b \\2b "), "c++");
    assert!(minify(".a\\23 {top:0}").contains("\\23 "));
}

#[test]
fn unescaping_text_without_a_backslash_does_not_allocate() {
    assert!(matches!(unescape("plain"), Cow::Borrowed(_)));
}

#[test]
fn minify_only_removes_comments_whitespace_and_redundant_semicolons() {
    let significant = |s: &str| -> Vec<String> {
        tokenize(s)
            .into_iter()
            .filter(|t| !t.is_trivia() && !matches!(t, Token::Semicolon))
            .map(|t| t.raw().to_string())
            .collect()
    };
    for css in [
        "a {\n  color: red;\n}",
        "@media (min-width: 768px) { p { top: 0 } }",
        "article :not(pre) > code { padding: 1px 5px; }",
        r#"@font-face { src: url(/a.woff2) format("woff2"); }"#,
        "a{b:c}/* trailing */",
        "a/*x*/b{top:0}",
        r#"a{content:"a, b";font-family:"JetBrains Mono"}"#,
    ] {
        assert_eq!(
            significant(&minify(css)),
            significant(css),
            "for {:?}",
            &css[..css.len().min(60)]
        );
    }
}

#[test]
fn a_trailing_semicolon_is_dropped_only_before_a_brace() {
    assert_eq!(minify("a{b:c;}"), "a{b:c}");
    assert_eq!(minify("a{b:c;d:e}"), "a{b:c;d:e}");
    assert_eq!(minify("a{b:c};"), "a{b:c};");
}

#[test]
fn a_comment_between_two_idents_does_not_fuse_them() {
    assert_eq!(minify("a/*x*/b{top:0}"), "a b{top:0}");
}

#[test]
fn minify_is_idempotent() {
    for css in [
        "a {\n  color: red;\n}",
        "@media (min-width: 768px) { p { top: 0 } }",
        r#"a{content:"a, b"}"#,
    ] {
        let once = minify(css);
        assert_eq!(minify(&once), once, "for {css:?}");
    }
}

#[test]
fn minify_never_closes_the_style_element() {
    for css in [
        r#"a{content:"</style>"}"#,
        r#"a{content:"</STYLE >"}"#,
        r#"a{background:url(</style>)}"#,
        "a{x:< /style}",
        "a{x:</style}",
    ] {
        let out = minify(css);
        assert!(
            !out.to_ascii_lowercase().contains("</style"),
            "{css:?} produced {out:?}"
        );
    }
    assert_eq!(unescape("a\\3c b"), "a<b");
}

#[test]
fn a_media_query_range_comparison_is_not_escaped() {
    assert!(minify("@media (400px <= width){a{top:0}}").contains("<="));
}

#[test]
fn selector_classes_ignores_dots_that_are_not_class_selectors() {
    let classes = |s: &str| -> Vec<String> {
        let toks = kinds(s);
        selector_classes(&toks).iter().map(|c| c.to_string()).collect()
    };
    assert_eq!(classes(".a.b .c"), ["a", "b", "c"]);
    assert_eq!(classes("p"), Vec::<String>::new());
    assert_eq!(classes(r#"a[href=".x"]"#), Vec::<String>::new());
    assert_eq!(classes("a{margin:.5em}"), Vec::<String>::new());
}

#[test]
fn a_prelude_splits_on_top_level_commas_only() {
    let toks = kinds("h1, h2:not(.a, .b)");
    let groups = selectors(&toks);
    assert_eq!(groups.len(), 2);
    assert_eq!(serialize(groups[0]), "h1");
    assert_eq!(serialize(groups[1]), "h2:not(.a, .b)");
}

#[test]
fn a_hex_escape_takes_the_space_a_comment_leaves() {
    // The comment becomes the one space between the two identifiers, and a
    // hex escape ends by taking one space: the output reads as one identifier.
    assert_eq!(minify("a\\31/**/ b{}"), "a\\31 b{}");
    let once = minify("a\\31/**/ b{}");
    assert_eq!(minify(&once), once);
}

#[test]
fn minify_is_idempotent_where_it_escapes() {
    for css in [
        "a{x:</style}",
        r#"a{content:"<b>"}"#,
        "a{background:url(<x)}",
        "a/*x*/b{top:0}",
        "a{b:c; /* x */ }",
    ] {
        let once = minify(css);
        assert_eq!(minify(&once), once, "for {css:?}");
    }
}

#[test]
fn each_error_says_what_went_wrong() {
    assert_eq!(Error::UnterminatedComment.describe(), "unterminated comment (`/*` with no `*/`)");
    assert_eq!(Error::UnterminatedString.describe(), "unterminated string literal");
    assert_eq!(Error::BadUrl.describe(), "malformed url()");
    assert_eq!(Error::UnclosedBlock.describe(), "unclosed `{` block");
}

#[test]
fn an_escaped_angle_bracket_in_an_identifier_cannot_close_the_style_element() {
    let out = minify("a{x:a\\</style}");
    assert!(!out.to_ascii_lowercase().contains("</style"), "got {out:?}");
    assert_eq!(out, "a{x:a\\3c /style}");
}
