use blog::highlight::render;


fn hl(code: &str, lang: &str) -> String {
    render(code, lang)
}

#[test]
fn an_unknown_language_is_escaped_and_nothing_else() {
    assert_eq!(hl("a < b & c", ""), "a &lt; b &amp; c");
    assert_eq!(hl("plain text", "wolof"), "plain text");
    assert_eq!(hl("<script>", "text"), "&lt;script&gt;");
}

#[test]
fn code_is_escaped_even_inside_a_span() {
    let out = hl("// <script>alert(1)</script>", "rust");
    assert!(!out.contains("<script>"), "raw tag survived: {out}");
    assert_eq!(
        out,
        "<span class=\"com\">// &lt;script&gt;alert(1)&lt;/script&gt;</span>"
    );
}

#[test]
fn comments_are_recognised_per_language() {
    assert!(hl("# a comment", "bash").starts_with("<span class=\"com\">#"));
    assert!(hl("; a comment", "asm").starts_with("<span class=\"com\">;"));
    assert!(hl("(* a comment *)", "ocaml").starts_with("<span class=\"com\">(*"));
    assert!(hl("// a comment", "go").starts_with("<span class=\"com\">//"));
    // A `#` is not a comment in a language that has no line comment.
    assert!(!hl("#[derive(Debug)]", "rust").contains("class=\"com\""));
}

#[test]
fn ocaml_nests_block_comments() {
    let out = hl("(* a (* b *) c *) x", "ocaml");
    assert_eq!(
        out, "<span class=\"com\">(* a (* b *) c *)</span> x",
        "the inner close must not end the outer comment"
    );
}

#[test]
fn a_comment_marker_inside_a_string_is_not_a_comment() {
    assert_eq!(
        hl("\"a # b\"", "bash"),
        "<span class=\"str\">\"a # b\"</span>"
    );
    assert_eq!(
        hl("db \"a ; b\"", "asm"),
        "db <span class=\"str\">\"a ; b\"</span>"
    );
    // ...and a quote inside a comment does not open a string.
    assert_eq!(hl("# don't", "bash"), "<span class=\"com\"># don't</span>");
}

#[test]
fn a_string_stops_at_the_end_of_its_line() {
    let out = hl("\"unterminated\nlet x = 1", "ocaml");
    assert!(
        out.contains("<span class=\"str\">\"unterminated</span>"),
        "got: {out}"
    );
    assert!(
        out.contains("class=\"def\">x<"),
        "the next line still lexes: {out}"
    );
}

#[test]
fn a_lifetime_is_not_a_character_literal_but_a_character_is() {
    assert_eq!(hl("'a", "rust"), "'a");
    assert_eq!(hl("'x'", "rust"), "<span class=\"str\">'x'</span>");
    assert_eq!(hl("'\\n'", "rust"), "<span class=\"str\">'\\n'</span>");
    assert_eq!(hl("'0'", "asm"), "<span class=\"str\">'0'</span>");
    // OCaml primes belong to the name.
    assert_eq!(hl("lt'", "ocaml"), "lt'");
    // Where `'` is a string delimiter it stays one.
    assert_eq!(hl("'abc'", "bash"), "<span class=\"str\">'abc'</span>");
}

#[test]
fn a_definition_names_the_identifier_after_the_introducer() {
    assert!(hl("fn main() {}", "rust").contains("class=\"def\">main<"));
    assert!(hl("let rec to_string t =", "ocaml").contains("class=\"def\">to_string<"));
    assert!(hl("type term =", "ocaml").contains("class=\"def\">term<"));
    assert!(hl("func Add(a int)", "go").contains("class=\"def\">Add<"));
    // The introducer itself stays unstyled -- keywords are not coloured.
    assert!(!hl("fn main() {}", "rust").contains(">fn<"));
    // Nothing to name is not an error.
    assert_eq!(hl("let", "ocaml"), "let");
    assert!(hl("func (r *R) f()", "go").contains("func <span class=\"pun\">("));
}

#[test]
fn all_caps_identifiers_are_constants_except_in_assembly() {
    assert!(hl("MAX_SIZE", "rust").contains("class=\"con\">MAX_SIZE<"));
    assert!(!hl("maxSize", "rust").contains("class=\"con\""));
    // A single capital is a type variable far more often than a constant.
    assert!(!hl("T", "rust").contains("class=\"con\""));
    // Uppercase mnemonics would colour every token of an assembly block.
    assert_eq!(hl("MOV AL", "asm"), "MOV AL");
}

#[test]
fn numbers_share_the_string_colour_and_stop_where_the_literal_does() {
    assert_eq!(hl("34h", "asm"), "<span class=\"str\">34h</span>");
    assert_eq!(
        hl("0..5", "rust"),
        "<span class=\"str\">0</span><span class=\"pun\">..</span><span class=\"str\">5</span>"
    );
    // A digit inside a name is part of the name, not a literal.
    assert_eq!(hl("t1", "ocaml"), "t1");
}

#[test]
fn punctuation_runs_are_one_span_and_stop_before_a_comment() {
    assert_eq!(hl("->", "ocaml"), "<span class=\"pun\">-&gt;</span>");
    assert_eq!(
        hl("x); ", "asm"),
        "x<span class=\"pun\">)</span><span class=\"com\">; </span>"
    );
}

#[test]
fn multibyte_source_is_never_split_mid_character() {
    assert_eq!(
        hl("\"λ\" ^ x", "ocaml"),
        "<span class=\"str\">\"λ\"</span> <span class=\"pun\">^</span> x"
    );
    assert_eq!(hl("(* λ *)", "ocaml"), "<span class=\"com\">(* λ *)</span>");
}


/// Every tag taken out, through the next `>`.
fn untag(html: &str) -> String {
    let mut out = String::new();
    let mut rest = html;
    while let Some(lt) = rest.find('<') {
        out.push_str(&rest[..lt]);
        let end = rest[lt..].find('>').map_or(rest.len(), |i| lt + i + 1);
        rest = &rest[end..];
    }
    out.push_str(rest);
    out
}

fn escaped(s: &str) -> String {
    s.replace('&', "&amp;").replace('<', "&lt;").replace('>', "&gt;")
}

#[test]
fn highlighting_adds_tags_and_nothing_else() {
    let blocks = [
        ("fn main() { let x = \"a < b\"; /* c & d */ }", "rust"),
        ("let rec f x = (* (* n *) *) x -> 'a'", "ocaml"),
        ("echo \"$HOME\" # > out", "bash"),
        ("MOV AL, 34h ; <tag>", "asm"),
        ("func (r *R) F() { return 0x1F }", "go"),
        ("<b>bold</b> & more", "wolof"),
    ];
    for (code, lang) in blocks {
        assert_eq!(untag(&hl(code, lang)), escaped(code), "in {lang:?}");
    }
}
