use blog::content::{parse, scaffold, slugify};
use blog::date::Date;
use chrono::{Datelike, NaiveDate};

const CODE_BLOCK: &str = "<pre class=\"hl\" data-lang=\"{{lang}}\"><code>{{code}}</code></pre>";

#[test]
fn a_title_becomes_the_slug_that_becomes_the_url() {
    assert_eq!(
        slugify("How I Isolated My Work Environment"),
        "how-i-isolated-my-work-environment"
    );
    assert_eq!(slugify("Rust: a tour"), "rust-a-tour");
    assert_eq!(slugify("  spaced  out  "), "spaced-out");
    assert_eq!(slugify("C++ & you"), "c-you");
    assert_eq!(slugify("λ"), "");
}

#[test]
fn a_scaffolded_post_parses() {
    let today = NaiveDate::from_ymd_opt(2026, 7, 28).unwrap();
    let day = Date::from_ymd(today.year(), today.month(), today.day()).unwrap();
    let post = parse(&scaffold("My Post", &today.to_string()), "my-post", CODE_BLOCK).unwrap();
    assert_eq!(post.title, "My Post");
    assert_eq!(post.pub_date, day);
    assert_eq!(post.tags, ["tag1"]);
    assert!(!post.draft);

    // A title is prose: unquoted, `: ` in one would be frontmatter syntax.
    let tricky = r#"Rust: a "tour""#;
    let post = parse(&scaffold(tricky, &today.to_string()), "x", CODE_BLOCK).unwrap();
    assert_eq!(post.title, tricky);
}
