//! Markdown to HTML: pulldown_cmark reads it, fenced code goes through syntect
//! into the code-block template, and math becomes MathML or stays text.
use vstd::prelude::*;

use latex2mathml::{latex_to_mathml, DisplayStyle};
use pulldown_cmark::{html, CodeBlockKind, Event as Md, Options, Parser, Tag, TagEnd};
use syntect::html::{ClassStyle, ClassedHTMLGenerator};
use syntect::util::LinesWithEndings;

use crate::render::{fill, fill_ok, fill_spec, holes_view, names_of};
use crate::text::{chars_of, is_ascii_alnum, is_ascii_alpha, push_char, push_str, str_eq};

verus! {

/// A Markdown event as the renderer reads it. Events that the parser produced
/// carry their position in its stream, which is how an event that passes
/// through unchanged is written out as the parser gave it; the last three are
/// made by the renderer.
pub enum Event {
    /// A code block opens; its info string if it is fenced.
    CodeStart(usize, Option<String>),
    CodeEnd(usize),
    Text(usize, String),
    InlineMath(usize, String),
    DisplayMath(usize, String),
    /// Any other event of the parser.
    Other(usize),
    Html(String),
    InlineHtml(String),
    /// Math that did not parse, written as the text it was.
    PlainText(String),
}

/// An event as plain values.
pub enum EventSpec {
    CodeStart(int, Option<Seq<char>>),
    CodeEnd(int),
    Text(int, Seq<char>),
    InlineMath(int, Seq<char>),
    DisplayMath(int, Seq<char>),
    Other(int),
    Html(Seq<char>),
    InlineHtml(Seq<char>),
    PlainText(Seq<char>),
}

pub open spec fn opt_string(o: Option<String>) -> Option<Seq<char>> {
    match o {
        Some(s) => Some(s@),
        None => None,
    }
}

pub open spec fn event_view(e: Event) -> EventSpec {
    match e {
        Event::CodeStart(i, info) => EventSpec::CodeStart(i as int, opt_string(info)),
        Event::CodeEnd(i) => EventSpec::CodeEnd(i as int),
        Event::Text(i, t) => EventSpec::Text(i as int, t@),
        Event::InlineMath(i, t) => EventSpec::InlineMath(i as int, t@),
        Event::DisplayMath(i, t) => EventSpec::DisplayMath(i as int, t@),
        Event::Other(i) => EventSpec::Other(i as int),
        Event::Html(t) => EventSpec::Html(t@),
        Event::InlineHtml(t) => EventSpec::InlineHtml(t@),
        Event::PlainText(t) => EventSpec::PlainText(t@),
    }
}

pub open spec fn events_view(v: Seq<Event>) -> Seq<EventSpec> {
    v.map_values(|e: Event| event_view(e))
}

/// The position in the parser's stream an event came from, if it came from
/// there.
pub open spec fn origin(e: EventSpec) -> Option<int> {
    match e {
        EventSpec::CodeStart(i, _) => Some(i),
        EventSpec::CodeEnd(i) => Some(i),
        EventSpec::Text(i, _) => Some(i),
        EventSpec::InlineMath(i, _) => Some(i),
        EventSpec::DisplayMath(i, _) => Some(i),
        EventSpec::Other(i) => Some(i),
        _ => None,
    }
}

/// Every event from the parser stands at its own position in the stream.
pub open spec fn in_place(evs: Seq<EventSpec>) -> bool {
    forall|k: int| 0 <= k < evs.len() ==> (origin(#[trigger] evs[k]) matches Some(i) ==> i == k)
}

/// Every event from the parser points into a stream of `n` events.
pub open spec fn within(evs: Seq<EventSpec>, n: int) -> bool {
    forall|k: int| 0 <= k < evs.len() ==> (origin(#[trigger] evs[k]) matches Some(i) ==> 0 <= i < n)
}

// -- Outside calls -------------------------------------------------------------

/// The events pulldown_cmark reads from `src`, with tables, strikethrough and
/// math on.
pub uninterp spec fn md_events(src: Seq<char>) -> Seq<EventSpec>;

/// Calls `pulldown_cmark::Parser::new_ext` on `src` with tables,
/// strikethrough and math, and reads each event as plain values: the result is
/// named `md_events`, and each event the parser gave stands at its position.
#[verifier::external_body]
fn parse_markdown(src: &str) -> (r: Vec<Event>)
    ensures
        events_view(r@) == md_events(src@),
        in_place(events_view(r@)),
{
    let opts = Options::ENABLE_TABLES | Options::ENABLE_STRIKETHROUGH | Options::ENABLE_MATH;
    Parser::new_ext(src, opts).enumerate().map(|(i, e)| match e {
        Md::Start(Tag::CodeBlock(CodeBlockKind::Fenced(s))) => Event::CodeStart(i, Some(s.to_string())),
        Md::Start(Tag::CodeBlock(CodeBlockKind::Indented)) => Event::CodeStart(i, None),
        Md::End(TagEnd::CodeBlock) => Event::CodeEnd(i),
        Md::Text(s) => Event::Text(i, s.to_string()),
        Md::InlineMath(s) => Event::InlineMath(i, s.to_string()),
        Md::DisplayMath(s) => Event::DisplayMath(i, s.to_string()),
        _ => Event::Other(i),
    }).collect()
}

/// The HTML pulldown_cmark writes for `events`, the parser's events for `src`
/// standing in for the events that came from it.
pub uninterp spec fn html_of(src: Seq<char>, events: Seq<EventSpec>) -> Seq<char>;

/// Calls `pulldown_cmark::html::push_html` on `events`, each event that came
/// from the parser replaced by the parser's own event for `src` at its
/// position; the result is named `html_of`.
#[verifier::external_body]
fn push_html(src: &str, events: &[Event]) -> (r: String)
    requires
        within(events_view(events@), md_events(src@).len() as int),
    ensures
        r@ == html_of(src@, events_view(events@)),
{
    let parsed: Vec<Md> =
        Parser::new_ext(src, Options::ENABLE_TABLES | Options::ENABLE_STRIKETHROUGH | Options::ENABLE_MATH).collect();
    let mut out = String::new();
    html::push_html(&mut out, events.iter().map(|e| match e {
        Event::Html(s) => Md::Html(s.clone().into()),
        Event::InlineHtml(s) => Md::InlineHtml(s.clone().into()),
        Event::PlainText(s) => Md::Text(s.clone().into()),
        Event::CodeStart(i, _) | Event::CodeEnd(i) | Event::Text(i, _) | Event::InlineMath(i, _)
        | Event::DisplayMath(i, _) | Event::Other(i) => parsed[*i].clone(),
    }));
    out
}

/// The HTML syntect writes for `code` in the syntax that `token` names, or in
/// plain text where none does, its classes prefixed with `prefix`; `None`
/// where syntect reports an error.
pub uninterp spec fn highlighted(code: Seq<char>, token: Seq<char>, prefix: Seq<char>) -> Option<Seq<char>>;

/// The prefix of every class the highlighter writes, as the stylesheet names
/// them.
pub const CLASS_PREFIX: &'static str = "hl-";

/// Highlights `code` with syntect's `ClassedHTMLGenerator`, classes prefixed
/// with `prefix`, in the syntax two_face's set finds for `token` or else in
/// plain text; the result is named `highlighted`.
#[verifier::external_body]
fn highlight_code(code: &str, token: &str, prefix: &'static str) -> (r: Option<String>)
    ensures
        opt_string(r) == highlighted(code@, token@, prefix@),
{
    let set = two_face::syntax::extra_newlines();
    let syntax = set.find_syntax_by_token(token).unwrap_or_else(|| set.find_syntax_plain_text());
    let style = ClassStyle::SpacedPrefixed { prefix };
    let mut generator = ClassedHTMLGenerator::new_with_class_style(syntax, &set, style);
    for line in LinesWithEndings::from(code) {
        generator.parse_html_for_line_which_includes_newline(line).ok()?;
    }
    Some(generator.finalize())
}

/// The MathML latex2mathml writes for `latex`, as a block or inline; `None`
/// where it cannot read it.
pub uninterp spec fn mathml_of(latex: Seq<char>, block: bool) -> Option<Seq<char>>;

/// The characters the lexer of latex2mathml passes over between tokens.
pub open spec fn latex_space(c: char) -> bool {
    c == ' ' || c == '\t' || c == '\n' || c == '\r'
}

/// Where the run of spaces from `j` ends.
pub open spec fn space_end(s: Seq<char>, j: int) -> int
    decreases s.len() - j,
{
    if 0 <= j < s.len() && latex_space(s[j]) {
        space_end(s, j + 1)
    } else {
        j
    }
}

/// The characters latex2mathml reads as a single operator.
pub open spec fn latex_operator(c: char) -> bool {
    c == '=' || c == ';' || c == ',' || c == '.' || c == '\'' || c == '+' || c == '-' || c == '*'
        || c == '/' || c == '!' || c == '<' || c == '>'
}

/// A `\middle` ending before `j` is no command of that name (a letter goes on),
/// or the next token is an operator.
pub open spec fn middle_follows_ok(s: Seq<char>, j: int) -> bool {
    (j < s.len() && is_ascii_alpha(s[j])) || (space_end(s, j) < s.len() && latex_operator(
        s[space_end(s, j)],
    ))
}

/// Every `\middle` in `s` is followed by an operator. latex2mathml stops
/// (`unimplemented!`) on a `\middle` before anything else, so only such text
/// is handed to it.
pub open spec fn middle_ok(s: Seq<char>) -> bool {
    forall|i: int|
        0 <= i && i + 7 <= s.len() && #[trigger] s.subrange(i, i + 7) == "\\middle"@ ==> middle_follows_ok(
            s,
            i + 7,
        )
}

/// Whether every `\middle` in `latex` is followed by an operator.
pub fn middle_safe(latex: &str) -> (r: bool)
    ensures
        r == middle_ok(latex@),
{
    let cs = chars_of(latex);
    let n = cs.len();
    let mut i: usize = 0;
    proof { reveal_strlit("\\middle"); }
    while i < n && n - i >= 7
        invariant
            cs@ == latex@,
            n == cs@.len(),
            "\\middle"@.len() == 7,
            forall|j: int|
                0 <= j < i && j + 7 <= n && #[trigger] cs@.subrange(j, j + 7) == "\\middle"@ ==> middle_follows_ok(
                    cs@,
                    j + 7,
                ),
        decreases n - i,
    {
        if crate::text::starts_at(&cs, i, n, "\\middle") {
            let j = i + 7;
            let letter = j < n && crate::text::alpha(cs[j]);
            if !letter {
                let mut k = j;
                while k < n && (cs[k] == ' ' || cs[k] == '\t' || cs[k] == '\n' || cs[k] == '\r')
                    invariant
                        j <= k <= n,
                        n == cs@.len(),
                        space_end(cs@, j as int) == space_end(cs@, k as int),
                    decreases n - k,
                {
                    k += 1;
                }
                let c_ok = k < n && {
                    let c = cs[k];
                    c == '=' || c == ';' || c == ',' || c == '.' || c == '\'' || c == '+' || c == '-'
                        || c == '*' || c == '/' || c == '!' || c == '<' || c == '>'
                };
                if !c_ok {
                    assert(cs@.subrange(i as int, i + 7) =~= "\\middle"@);
                    return false;
                }
            }
        }
        proof {
            assert forall|jj: int|
                0 <= jj < i + 1 && jj + 7 <= n && #[trigger] cs@.subrange(jj, jj + 7) == "\\middle"@ implies middle_follows_ok(
                    cs@,
                    jj + 7,
                ) by {
                if jj == i {
                    assert(crate::text::at_pat(cs@, i as int, n as int, "\\middle"@));
                }
            }
        }
        i += 1;
    }
    proof {
        assert forall|jj: int|
            0 <= jj && jj + 7 <= n && #[trigger] cs@.subrange(jj, jj + 7) == "\\middle"@ implies middle_follows_ok(
                cs@,
                jj + 7,
            ) by {
            assert(jj < i || jj + 7 > n);
        }
    }
    true
}

/// Calls `latex2mathml::latex_to_mathml`; the result is named `mathml_of`.
/// Its parser reaches `unimplemented!()` on a `\middle` that an operator does
/// not follow, so such text is left out.
#[verifier::external_body]
fn mathml(latex: &str, block: bool) -> (r: Option<String>)
    requires
        middle_ok(latex@),
    ensures
        opt_string(r) == mathml_of(latex@, block),
{
    let style = if block { DisplayStyle::Block } else { DisplayStyle::Inline };
    latex_to_mathml(latex, style).ok()
}

// -- Code blocks and math -------------------------------------------------------

/// A character the language name of a code block may hold.
pub open spec fn lang_char(c: char) -> bool {
    is_ascii_alnum(c) || c == '+' || c == '#' || c == '-'
}

/// Where the first word of `s[i..]` ends: at a space, a comma, or the end.
pub open spec fn word_end(s: Seq<char>, i: int) -> int
    decreases s.len() - i,
{
    if !(0 <= i < s.len()) || s[i] == ' ' || s[i] == ',' {
        i
    } else {
        word_end(s, i + 1)
    }
}

/// The characters of `s[..k]` a language name may hold, in order.
pub open spec fn lang_upto(s: Seq<char>, k: int) -> Seq<char>
    decreases k,
{
    if k <= 0 || k > s.len() {
        seq![]
    } else {
        lang_upto(s, k - 1) + if lang_char(s[k - 1]) { seq![s[k - 1]] } else { seq![] }
    }
}

/// The language of a code block: the first word of a fenced block's info
/// string, kept to the characters a language name may hold.
pub open spec fn language_spec(info: Option<Seq<char>>) -> Seq<char> {
    match info {
        Some(s) => lang_upto(s, word_end(s, 0)),
        None => seq![],
    }
}

/// The name syntect knows a language by.
pub open spec fn token_spec(lang: Seq<char>) -> Seq<char> {
    if lang == "shell"@ || lang == "console"@ {
        "bash"@
    } else {
        lang
    }
}

pub open spec fn cons(e: EventSpec, r: Option<Seq<EventSpec>>) -> Option<Seq<EventSpec>> {
    match r {
        Some(v) => Some(seq![e] + v),
        None => None,
    }
}

pub open spec fn prepend_events(p: Seq<EventSpec>, r: Option<Seq<EventSpec>>) -> Option<Seq<EventSpec>> {
    match r {
        Some(v) => Some(p + v),
        None => None,
    }
}

/// The events from `k` on, rewritten: a code block's text is gathered, and
/// at its end the block becomes the template filled with its language and its
/// highlighted code; math becomes MathML, or stays text where it does not
/// parse; everything else passes through. `None` where highlighting fails.
pub open spec fn rewrite_from(
    evs: Seq<EventSpec>,
    k: int,
    pending: Option<(Seq<char>, Seq<char>)>,
    t: Seq<char>,
) -> Option<Seq<EventSpec>>
    decreases evs.len() - k,
{
    if !(0 <= k < evs.len()) {
        Some(seq![])
    } else {
        match evs[k] {
            EventSpec::CodeStart(_, info) => rewrite_from(evs, k + 1, Some((language_spec(info), seq![])), t),
            EventSpec::Text(_, x) => match pending {
                Some((l, c)) => rewrite_from(evs, k + 1, Some((l, c + x)), t),
                None => cons(evs[k], rewrite_from(evs, k + 1, pending, t)),
            },
            EventSpec::CodeEnd(_) => match pending {
                Some((l, c)) => match highlighted(c, token_spec(l), CLASS_PREFIX@) {
                    None => None,
                    Some(h) => cons(
                        EventSpec::Html(fill_spec(t, seq![("lang"@, l), ("code"@, h)])),
                        rewrite_from(evs, k + 1, None, t),
                    ),
                },
                None => cons(evs[k], rewrite_from(evs, k + 1, pending, t)),
            },
            EventSpec::InlineMath(_, x) => cons(
                if !middle_ok(x) {
                    EventSpec::PlainText(x)
                } else {
                    match mathml_of(x, false) {
                        Some(m) => EventSpec::InlineHtml(m),
                        None => EventSpec::PlainText(x),
                    }
                },
                rewrite_from(evs, k + 1, pending, t),
            ),
            EventSpec::DisplayMath(_, x) => cons(
                if !middle_ok(x) {
                    EventSpec::PlainText(x)
                } else {
                    match mathml_of(x, true) {
                        Some(m) => EventSpec::Html(m),
                        None => EventSpec::PlainText(x),
                    }
                },
                rewrite_from(evs, k + 1, pending, t),
            ),
            _ => cons(evs[k], rewrite_from(evs, k + 1, pending, t)),
        }
    }
}

pub open spec fn rewrite_spec(evs: Seq<EventSpec>, t: Seq<char>) -> Option<Seq<EventSpec>> {
    rewrite_from(evs, 0, None, t)
}

/// Every event of `out` that came from the parser is one of `evs`.
pub open spec fn drawn_from(out: Seq<EventSpec>, evs: Seq<EventSpec>) -> bool {
    forall|j: int|
        0 <= j < out.len() ==> (origin(#[trigger] out[j]) is Some ==> exists|k: int|
            0 <= k < evs.len() && origin(evs[k]) == origin(out[j]))
}

impl Event {
    /// The same event.
    pub fn copy(&self) -> (r: Event)
        ensures
            event_view(r) == event_view(*self),
    {
        match self {
            Event::CodeStart(i, info) => Event::CodeStart(*i, match info {
                Some(s) => Some(s.clone()),
                None => None,
            }),
            Event::CodeEnd(i) => Event::CodeEnd(*i),
            Event::Text(i, t) => Event::Text(*i, t.clone()),
            Event::InlineMath(i, t) => Event::InlineMath(*i, t.clone()),
            Event::DisplayMath(i, t) => Event::DisplayMath(*i, t.clone()),
            Event::Other(i) => Event::Other(*i),
            Event::Html(t) => Event::Html(t.clone()),
            Event::InlineHtml(t) => Event::InlineHtml(t.clone()),
            Event::PlainText(t) => Event::PlainText(t.clone()),
        }
    }
}

/// The language of a code block whose info string is `info`.
pub fn code_language(info: &str) -> (r: String)
    ensures
        r@ == language_spec(Some(info@)),
{
    let cs = chars_of(info);
    let mut e: usize = 0;
    while e < cs.len() && cs[e] != ' ' && cs[e] != ','
        invariant
            e <= cs@.len(),
            cs@ == info@,
            word_end(cs@, 0) == word_end(cs@, e as int),
        decreases cs@.len() - e,
    {
        e += 1;
    }
    let mut out = String::new();
    let mut k: usize = 0;
    while k < e
        invariant
            k <= e <= cs@.len(),
            out@ == lang_upto(cs@, k as int),
        decreases e - k,
    {
        let c = cs[k];
        if crate::text::alnum(c) || c == '+' || c == '#' || c == '-' {
            push_char(&mut out, c);
        }
        k += 1;
    }
    out
}

/// The name syntect knows the language `lang` by.
pub fn syntax_token(lang: &str) -> (r: &str)
    ensures
        r@ == token_spec(lang@),
{
    if str_eq(lang, "shell") || str_eq(lang, "console") {
        "bash"
    } else {
        lang
    }
}

/// Rewrites the events of a Markdown text for output: each code block becomes
/// `code_block` filled with its language and its highlighted code, and math
/// becomes MathML. `None` where syntect fails on a block.
pub fn rewrite(events: &[Event], code_block: &str) -> (r: Option<Vec<Event>>)
    requires
        fill_ok(code_block@, seq!["lang"@, "code"@]),
    ensures
        match r {
            Some(v) => rewrite_spec(events_view(events@), code_block@) == Some(events_view(v@))
                && drawn_from(events_view(v@), events_view(events@)),
            None => rewrite_spec(events_view(events@), code_block@) is None,
        },
{
    let ghost evs = events_view(events@);
    let mut out: Vec<Event> = Vec::new();
    let mut open = false;
    let mut lang = String::new();
    let mut code = String::new();
    let mut k: usize = 0;
    assert(events_view(out@) =~= Seq::<EventSpec>::empty());
    while k < events.len()
        invariant
            evs == events_view(events@),
            k <= events@.len(),
            fill_ok(code_block@, seq!["lang"@, "code"@]),
            rewrite_spec(evs, code_block@) == prepend_events(
                events_view(out@),
                rewrite_from(evs, k as int, if open { Some((lang@, code@)) } else { None }, code_block@),
            ),
            drawn_from(events_view(out@), evs),
        decreases events@.len() - k,
    {
        let ghost before = events_view(out@);
        let ghost pend = if open { Some((lang@, code@)) } else { None::<(Seq<char>, Seq<char>)> };
        assert(evs[k as int] == event_view(events@[k as int]));
        let mut made: Option<Event> = None;
        match &events[k] {
            Event::CodeStart(_, info) => {
                lang = match info {
                    Some(s) => code_language(s.as_str()),
                    None => String::new(),
                };
                code = String::new();
                open = true;
            },
            Event::Text(_, x) => {
                if open {
                    push_str(&mut code, x.as_str());
                } else {
                    made = Some(events[k].copy());
                }
            },
            Event::CodeEnd(_) => {
                if open {
                    let token = syntax_token(lang.as_str());
                    let h = match highlight_code(code.as_str(), token, CLASS_PREFIX) {
                        Some(h) => h,
                        None => {
                            return None;
                        },
                    };
                    let holes = [("lang", lang.as_str()), ("code", h.as_str())];
                    assert(holes_view(holes@) =~= seq![("lang"@, lang@), ("code"@, h@)]);
                    assert(names_of(holes_view(holes@)) =~= seq!["lang"@, "code"@]);
                    let filled = fill(code_block, &holes);
                    made = Some(Event::Html(filled));
                    open = false;
                } else {
                    made = Some(events[k].copy());
                }
            },
            Event::InlineMath(_, x) => {
                made = Some(if !middle_safe(x.as_str()) {
                    Event::PlainText(x.clone())
                } else {
                    match mathml(x.as_str(), false) {
                        Some(m) => Event::InlineHtml(m),
                        None => Event::PlainText(x.clone()),
                    }
                });
            },
            Event::DisplayMath(_, x) => {
                made = Some(if !middle_safe(x.as_str()) {
                    Event::PlainText(x.clone())
                } else {
                    match mathml(x.as_str(), true) {
                        Some(m) => Event::Html(m),
                        None => Event::PlainText(x.clone()),
                    }
                });
            },
            _ => {
                made = Some(events[k].copy());
            },
        }
        match made {
            Some(e) => {
                let ghost ev = event_view(e);
                out.push(e);
                assert(events_view(out@) =~= before.push(ev));
                proof {
                    let nxt = rewrite_from(evs, k + 1, if open { Some((lang@, code@)) } else { None }, code_block@);
                    match nxt {
                        Some(v) => {
                            assert(before + (seq![ev] + v) =~= before.push(ev) + v);
                        },
                        None => {},
                    }
                    assert forall|j: int| 0 <= j < events_view(out@).len() && origin(#[trigger] events_view(out@)[j]) is Some implies exists|kk: int|
                        0 <= kk < evs.len() && origin(evs[kk]) == origin(events_view(out@)[j]) by {
                        if j < before.len() {
                            assert(events_view(out@)[j] == before[j]);
                        } else {
                            assert(origin(evs[k as int]) == origin(events_view(out@)[j]));
                        }
                    }
                }
            },
            None => {
                assert(events_view(out@) == before);
            },
        }
        k += 1;
    }
    assert(events_view(out@) + Seq::<EventSpec>::empty() =~= events_view(out@));
    Some(out)
}

/// `src` as HTML: Markdown read by pulldown_cmark, each code block highlighted
/// by syntect into `code_block`, math set as MathML. `None` where syntect fails
/// on a block.
pub fn render_markdown(src: &str, code_block: &str) -> (r: Option<String>)
    requires
        fill_ok(code_block@, seq!["lang"@, "code"@]),
    ensures
        match rewrite_spec(md_events(src@), code_block@) {
            Some(v) => opt_string(r) == Some(html_of(src@, v)),
            None => r is None,
        },
{
    let evs = parse_markdown(src);
    let out = match rewrite(&evs, code_block) {
        Some(o) => o,
        None => return None,
    };
    proof {
        let ev = events_view(evs@);
        let ov = events_view(out@);
        let n = md_events(src@).len() as int;
        assert forall|j: int| 0 <= j < ov.len() implies (origin(#[trigger] ov[j]) matches Some(i) ==> 0 <= i < n) by {
            if origin(ov[j]) is Some {
                let kk = choose|kk: int| 0 <= kk < ev.len() && origin(ev[kk]) == origin(ov[j]);
                assert(origin(ev[kk]) matches Some(i) ==> i == kk);
            }
        }
    }
    Some(push_html(src, &out))
}

} // verus!
