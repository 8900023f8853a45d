use blog::markdown::{code_language, middle_safe, render_markdown, rewrite, syntax_token, Event};

const CODE_BLOCK: &str = "<pre class=\"hl\" data-lang=\"{{lang}}\"><code>{{code}}</code></pre>";

#[test]
fn markdown_becomes_html() {
    assert_eq!(
        render_markdown("# Hi\n\nsome *text*\n", CODE_BLOCK).unwrap(),
        "<h1>Hi</h1>\n<p>some <em>text</em></p>\n"
    );
}

#[test]
fn a_fenced_block_is_highlighted_into_the_template() {
    let out = render_markdown("```rust,ignore\nfn main() {}\n```\n", CODE_BLOCK).unwrap();
    assert!(out.starts_with("<pre class=\"hl\" data-lang=\"rust\"><code>"), "got {out}");
    assert!(out.contains("hl-"), "no syntect classes: {out}");
    assert!(out.contains("main"), "got {out}");
}

#[test]
fn math_becomes_mathml_or_stays_text() {
    let out = render_markdown("$x^2$\n", CODE_BLOCK).unwrap();
    assert!(out.contains("<math"), "got {out}");
    assert!(out.contains("display=\"inline\""), "got {out}");
    let bad = render_markdown("$\\frac{$\n", CODE_BLOCK).unwrap();
    assert!(!bad.contains("<math"), "got {bad}");
}

#[test]
fn the_language_is_the_first_word_of_the_info_string() {
    assert_eq!(code_language("rust,ignore"), "rust");
    assert_eq!(code_language("c++ extra"), "c++");
    assert_eq!(code_language("{sh}"), "sh");
    assert_eq!(code_language(""), "");
    assert_eq!(syntax_token("shell"), "bash");
    assert_eq!(syntax_token("console"), "bash");
    assert_eq!(syntax_token("rust"), "rust");
}

#[test]
fn other_events_pass_through_and_text_outside_code_stays() {
    let events = vec![Event::Other(0), Event::Text(1, "a".to_string()), Event::Other(2)];
    let out = rewrite(&events, CODE_BLOCK).unwrap();
    assert_eq!(out.len(), 3);
    assert!(matches!(out[1], Event::Text(1, ref t) if t == "a"));
}

#[test]
fn a_code_block_gathers_its_text() {
    let events = vec![
        Event::CodeStart(0, Some("text".to_string())),
        Event::Text(1, "a < b\n".to_string()),
        Event::CodeEnd(2),
    ];
    let out = rewrite(&events, "[{{lang}}|{{code}}]").unwrap();
    assert_eq!(out.len(), 1);
    match &out[0] {
        Event::Html(h) => {
            assert!(h.starts_with("[text|"), "got {h}");
            assert!(h.contains("a &lt; b"), "got {h}");
        }
        _ => panic!("expected html"),
    }
}

#[test]
fn a_middle_before_anything_but_an_operator_stays_text() {
    assert!(!middle_safe("\\middle x"));
    assert!(!middle_safe("a \\middle| b"));
    assert!(middle_safe("a \\middle / b"));
    assert!(middle_safe("\\middlex"));
    assert!(middle_safe("x^2"));
    let out = render_markdown("$\\middle x$\n", CODE_BLOCK).unwrap();
    assert!(!out.contains("<math"), "got {out}");
    assert!(out.contains("\\middle x"), "got {out}");
    let ok = render_markdown("$a \\middle / b$\n", CODE_BLOCK).unwrap();
    assert!(ok.contains("<math"), "got {ok}");
}
