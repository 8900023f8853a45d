//! XML 1.0 (Fifth Edition) <https://www.w3.org/TR/xml/>
//! Deliberately missing: DTDs, entity declarations, namespaces, and processing
//! instructions.
use vstd::prelude::*;

use crate::text::{at_pat, chars_of, is_ascii_alpha, is_ascii_digit, push_char, push_str};

verus! {

/// The `Char` production: what may appear in an XML document at all.
pub open spec fn is_char(c: char) -> bool {
    c == '\u{9}' || c == '\u{A}' || c == '\u{D}' || ('\u{20}' <= c && c <= '\u{D7FF}') || (
    '\u{E000}' <= c && c <= '\u{FFFD}') || ('\u{10000}' <= c && c <= '\u{10FFFF}')
}

fn char_ok(c: char) -> (r: bool)
    ensures
        r == is_char(c),
{
    c == '\u{9}' || c == '\u{A}' || c == '\u{D}' || ('\u{20}' <= c && c <= '\u{D7FF}') || (
    '\u{E000}' <= c && c <= '\u{FFFD}') || ('\u{10000}' <= c && c <= '\u{10FFFF}')
}

/// Character data, escaped for element content.
pub struct Text<'a>(&'a str);

impl<'a> View for Text<'a> {
    type V = Seq<char>;

    closed spec fn view(&self) -> Seq<char> {
        self.0@
    }
}

/// An attribute value, escaped for a double-quoted attribute.
pub struct Attr<'a>(&'a str);

impl<'a> View for Attr<'a> {
    type V = Seq<char>;

    closed spec fn view(&self) -> Seq<char> {
        self.0@
    }
}

/// A CDATA section.
pub struct CData<'a>(&'a str);

impl<'a> View for CData<'a> {
    type V = Seq<char>;

    closed spec fn view(&self) -> Seq<char> {
        self.0@
    }
}

pub fn text(s: &str) -> (r: Text<'_>)
    ensures
        r@ == s@,
{
    Text(s)
}

pub fn attr(s: &str) -> (r: Attr<'_>)
    ensures
        r@ == s@,
{
    Attr(s)
}

pub fn cdata(s: &str) -> (r: CData<'_>)
    ensures
        r@ == s@,
{
    CData(s)
}

/// `s` with every character that is not a `Char` dropped and each other one
/// replaced by `f` of it.
pub open spec fn escaped(s: Seq<char>, f: spec_fn(char) -> Seq<char>) -> Seq<char>
    decreases s.len(),
{
    if s.len() == 0 {
        seq![]
    } else {
        escaped(s.drop_last(), f) + if is_char(s.last()) { f(s.last()) } else { seq![] }
    }
}

/// How character data writes `c` (section 2.4).
pub open spec fn text_char(c: char) -> Seq<char> {
    if c == '&' {
        "&amp;"@
    } else if c == '<' {
        "&lt;"@
    } else if c == '>' {
        "&gt;"@
    } else if c == '\r' {
        "&#xD;"@
    } else {
        seq![c]
    }
}

/// How an attribute value writes `c`, so that normalization gives it back
/// (section 3.3.3).
pub open spec fn attr_char(c: char) -> Seq<char> {
    if c == '&' {
        "&amp;"@
    } else if c == '<' {
        "&lt;"@
    } else if c == '>' {
        "&gt;"@
    } else if c == '"' {
        "&quot;"@
    } else if c == '\t' {
        "&#x9;"@
    } else if c == '\n' {
        "&#xA;"@
    } else if c == '\r' {
        "&#xD;"@
    } else {
        seq![c]
    }
}

pub open spec fn text_spec(s: Seq<char>) -> Seq<char> {
    escaped(s, |c: char| text_char(c))
}

pub open spec fn attr_spec(s: Seq<char>) -> Seq<char> {
    escaped(s, |c: char| attr_char(c))
}

/// The legal characters of `s`, in order.
pub open spec fn legal(s: Seq<char>) -> Seq<char> {
    escaped(s, |c: char| seq![c])
}

/// The character an entity at the start of `t` stands for, and its length:
/// the five this module writes and the three character references.
pub open spec fn entity_at(t: Seq<char>) -> Option<(char, int)> {
    if t.len() >= 5 && t[0] == '&' && t[1] == 'a' && t[2] == 'm' && t[3] == 'p' && t[4] == ';' {
        Some(('&', 5))
    } else if t.len() >= 4 && t[0] == '&' && t[1] == 'l' && t[2] == 't' && t[3] == ';' {
        Some(('<', 4))
    } else if t.len() >= 4 && t[0] == '&' && t[1] == 'g' && t[2] == 't' && t[3] == ';' {
        Some(('>', 4))
    } else if t.len() >= 6 && t[0] == '&' && t[1] == 'q' && t[2] == 'u' && t[3] == 'o' && t[4] == 't'
        && t[5] == ';' {
        Some(('"', 6))
    } else if t.len() >= 5 && t[0] == '&' && t[1] == '#' && t[2] == 'x' && t[4] == ';' && (t[3] == '9'
        || t[3] == 'A' || t[3] == 'D') {
        Some((if t[3] == '9' { '\t' } else if t[3] == 'A' { '\n' } else { '\r' }, 5))
    } else {
        None
    }
}

/// What a reader takes `t` to mean, read left to right: each entity is the
/// character it stands for, every other character itself.
pub open spec fn decode(t: Seq<char>) -> Seq<char>
    decreases t.len(),
{
    if t.len() == 0 {
        seq![]
    } else if t[0] == '&' && entity_at(t) is Some {
        let (c, n) = entity_at(t)->Some_0;
        if 0 < n <= t.len() {
            seq![c] + decode(t.skip(n))
        } else {
            seq![]
        }
    } else {
        seq![t[0]] + decode(t.skip(1))
    }
}

proof fn lemma_escaped_front(s: Seq<char>, f: spec_fn(char) -> Seq<char>)
    requires
        s.len() > 0,
    ensures
        escaped(s, f) == (if is_char(s[0]) { f(s[0]) } else { seq![] }) + escaped(s.drop_first(), f),
    decreases s.len(),
{
    if s.len() == 1 {
        assert(s.drop_last() =~= Seq::<char>::empty());
        assert(s.drop_first() =~= Seq::<char>::empty());
        assert(escaped(Seq::<char>::empty(), f) == Seq::<char>::empty());
    } else {
        lemma_escaped_front(s.drop_last(), f);
        assert(s.drop_last().drop_first() =~= s.drop_first().drop_last());
        assert(s.drop_first().last() == s.last());
        assert(s.drop_last()[0] == s[0]);
    }
}

/// Decoding one written character, then the rest.
proof fn lemma_decode_one(c: char, w: Seq<char>, rest: Seq<char>)
    requires
        w == text_char(c) || w == attr_char(c),
    ensures
        decode(w + rest) == seq![c] + decode(rest),
{
    reveal_strlit("&amp;");
    reveal_strlit("&lt;");
    reveal_strlit("&gt;");
    reveal_strlit("&quot;");
    reveal_strlit("&#x9;");
    reveal_strlit("&#xA;");
    reveal_strlit("&#xD;");
    let t = w + rest;
    assert(t.skip(w.len() as int) =~= rest);
    assert forall|k: int| 0 <= k < w.len() implies t[k] == w[k] by {}
    if w.len() == 1 {
        assert(w[0] == c);
        assert(t[0] == c);
    }
}

proof fn lemma_decode_escaped(s: Seq<char>, f: spec_fn(char) -> Seq<char>, attribute: bool)
    requires
        forall|c: char| #[trigger] f(c) == if attribute { attr_char(c) } else { text_char(c) },
    ensures
        decode(escaped(s, f)) == legal(s),
    decreases s.len(),
{
    if s.len() == 0 {
        assert(legal(s) == Seq::<char>::empty());
    } else {
        let g = |c: char| seq![c];
        lemma_escaped_front(s, f);
        lemma_escaped_front(s, g);
        lemma_decode_escaped(s.drop_first(), f, attribute);
        let rest = escaped(s.drop_first(), f);
        if is_char(s[0]) {
            lemma_decode_one(s[0], f(s[0]), rest);
        } else {
            assert(Seq::<char>::empty() + rest =~= rest);
            assert(Seq::<char>::empty() + legal(s.drop_first()) =~= legal(s.drop_first()));
        }
    }
}

/// Escaped character data reads back as the legal characters it was given.
pub proof fn lemma_text_decodes(s: Seq<char>)
    ensures
        decode(text_spec(s)) == legal(s),
{
    lemma_decode_escaped(s, |c: char| text_char(c), false);
}

/// An escaped attribute value reads back as the legal characters it was
/// given: tabs, newlines and carriage returns are references, so attribute
/// normalization leaves them alone.
pub proof fn lemma_attr_decodes(s: Seq<char>)
    ensures
        decode(attr_spec(s)) == legal(s),
{
    lemma_decode_escaped(s, |c: char| attr_char(c), true);
}

/// `s` with every `pat` replaced by `rep`, left to right, from `i` on.
pub open spec fn replace_from(s: Seq<char>, i: int, pat: Seq<char>, rep: Seq<char>) -> Seq<char>
    decreases s.len() - i,
{
    if !(0 <= i < s.len()) || pat.len() == 0 {
        seq![]
    } else if at_pat(s, i, s.len() as int, pat) {
        rep + replace_from(s, i + pat.len(), pat, rep)
    } else {
        seq![s[i]] + replace_from(s, i + 1, pat, rep)
    }
}

/// A CDATA section holding the legal characters of `s`. A `]]>` inside is
/// split across two sections, so it cannot end the first.
pub open spec fn cdata_spec(s: Seq<char>) -> Seq<char> {
    "<![CDATA["@ + replace_from(legal(s), 0, "]]>"@, "]]]]><![CDATA[>"@) + "]]>"@
}

/// Appends each legal character of `s` as `esc` writes it.
fn push_escaped(out: &mut String, s: &str, attribute: bool)
    ensures
        final(out)@ == old(out)@ + if attribute { attr_spec(s@) } else { text_spec(s@) },
{
    let cs = chars_of(s);
    let ghost start = out@;
    let ghost f = if attribute { |c: char| attr_char(c) } else { |c: char| text_char(c) };
    let mut k: usize = 0;
    while k < cs.len()
        invariant
            k <= cs@.len(),
            cs@ == s@,
            f == (if attribute { |c: char| attr_char(c) } else { |c: char| text_char(c) }),
            out@ == start + escaped(cs@.subrange(0, k as int), f),
        decreases cs@.len() - k,
    {
        let c = cs[k];
        let ghost before = out@;
        if char_ok(c) {
            if c == '&' {
                push_str(out, "&amp;");
            } else if c == '<' {
                push_str(out, "&lt;");
            } else if c == '>' {
                push_str(out, "&gt;");
            } else if attribute && c == '"' {
                push_str(out, "&quot;");
            } else if attribute && c == '\t' {
                push_str(out, "&#x9;");
            } else if attribute && c == '\n' {
                push_str(out, "&#xA;");
            } else if c == '\r' {
                push_str(out, "&#xD;");
            } else {
                push_char(out, c);
            }
            assert(out@ =~= before + f(c));
        }
        assert(cs@.subrange(0, k + 1).drop_last() =~= cs@.subrange(0, k as int));
        k += 1;
    }
    assert(cs@.subrange(0, cs@.len() as int) =~= cs@);
}

impl<'a> Text<'a> {
    /// The escaped text.
    pub fn to_string(&self) -> (r: String)
        ensures
            r@ == text_spec(self@),
    {
        let mut out = String::new();
        push_escaped(&mut out, self.0, false);
        out
    }
}

impl<'a> Attr<'a> {
    /// The escaped value.
    pub fn to_string(&self) -> (r: String)
        ensures
            r@ == attr_spec(self@),
    {
        let mut out = String::new();
        push_escaped(&mut out, self.0, true);
        out
    }
}

/// The legal characters of `s`.
fn legal_chars(s: &str) -> (r: Vec<char>)
    ensures
        r@ == legal(s@),
{
    let cs = chars_of(s);
    let mut out: Vec<char> = Vec::new();
    let mut k: usize = 0;
    while k < cs.len()
        invariant
            k <= cs@.len(),
            cs@ == s@,
            out@ == legal(cs@.subrange(0, k as int)),
        decreases cs@.len() - k,
    {
        let c = cs[k];
        if char_ok(c) {
            out.push(c);
        }
        assert(cs@.subrange(0, k + 1).drop_last() =~= cs@.subrange(0, k as int));
        assert(out@ =~= legal(cs@.subrange(0, k + 1)));
        k += 1;
    }
    assert(cs@.subrange(0, cs@.len() as int) =~= cs@);
    out
}

impl<'a> CData<'a> {
    /// The section, or sections where the text holds `]]>`.
    pub fn to_string(&self) -> (r: String)
        ensures
            r@ == cdata_spec(self@),
    {
        let t = legal_chars(self.0);
        let ghost pat = "]]>"@;
        let ghost rep = "]]]]><![CDATA[>"@;
        proof {
            reveal_strlit("]]>");
            assert(pat =~= seq![']', ']', '>']);
        }
        let mut out = String::new();
        push_str(&mut out, "<![CDATA[");
        let ghost start = out@;
        let mut i: usize = 0;
        while i < t.len()
            invariant
                i <= t@.len(),
                pat == "]]>"@,
                pat == seq![']', ']', '>'],
                rep == "]]]]><![CDATA[>"@,
                start + replace_from(t@, 0, pat, rep) == out@ + replace_from(t@, i as int, pat, rep),
            decreases t@.len() - i,
        {
            let ghost before = out@;
            if t.len() - i >= 3 && t[i] == ']' && t[i + 1] == ']' && t[i + 2] == '>' {
                assert(t@.subrange(i as int, i + 3) =~= pat);
                assert(at_pat(t@, i as int, t@.len() as int, pat));
                push_str(&mut out, "]]]]><![CDATA[>");
                assert(before + replace_from(t@, i as int, pat, rep) =~= out@ + replace_from(
                    t@,
                    i + 3,
                    pat,
                    rep,
                ));
                i += 3;
            } else {
                proof {
                    if at_pat(t@, i as int, t@.len() as int, pat) {
                        assert(t@.subrange(i as int, i + 3)[0] == ']');
                        assert(t@.subrange(i as int, i + 3)[1] == ']');
                        assert(t@.subrange(i as int, i + 3)[2] == '>');
                    }
                }
                push_char(&mut out, t[i]);
                assert(before + replace_from(t@, i as int, pat, rep) =~= out@ + replace_from(
                    t@,
                    i + 1,
                    pat,
                    rep,
                ));
                i += 1;
            }
        }
        assert(out@ + replace_from(t@, i as int, pat, rep) =~= out@);
        push_str(&mut out, "]]>");
        out
    }
}

/// The `Name` production, as far as this project's element names need it.
pub open spec fn is_name_start(c: char) -> bool {
    is_ascii_alpha(c) || c == '_' || c == ':' || c > '\x7f'
}

pub open spec fn is_name(s: Seq<char>) -> bool {
    s.len() > 0 && is_name_start(s[0]) && forall|k: int| 0 <= k < s.len() ==> {
        let c = #[trigger] s[k];
        is_name_start(c) || is_ascii_digit(c) || c == '-' || c == '.'
    }
}

pub enum Node<'a> {
    Elem { name: &'a str, attrs: Vec<(&'a str, String)>, children: Vec<Node<'a>> },
    Text(String),
    CData(String),
}

impl<'a> Node<'a> {
    pub fn elem(name: &'a str, attrs: Vec<(&'a str, String)>, children: Vec<Node<'a>>) -> (r: Node<
        'a,
    >)
        requires
            is_name(name@),
        ensures
            r == (Node::Elem { name, attrs, children }),
    {
        Node::Elem { name, attrs, children }
    }

    pub fn tag(name: &'a str, children: Vec<Node<'a>>) -> (r: Node<'a>)
        requires
            is_name(name@),
        ensures
            r matches Node::Elem { name: n, attrs, children: c } && n == name && attrs@.len() == 0
                && c == children,
    {
        Node::elem(name, Vec::new(), children)
    }

    pub fn line(name: &'a str, s: &str) -> (r: Node<'a>)
        requires
            is_name(name@),
        ensures
            r matches Node::Elem { name: n, attrs, children } && n == name && attrs@.len() == 0
                && children@.len() == 1 && (children@[0] matches Node::Text(t) && t@ == s@),
    {
        let mut children = Vec::new();
        children.push(Node::text(s));
        Node::elem(name, Vec::new(), children)
    }

    pub fn text(s: &str) -> (r: Node<'a>)
        ensures
            r matches Node::Text(t) && t@ == s@,
    {
        Node::Text(s.to_owned())
    }

    pub fn cdata(s: &str) -> (r: Node<'a>)
        ensures
            r matches Node::CData(t) && t@ == s@,
    {
        Node::CData(s.to_owned())
    }
}

/// ` k="v"` for each attribute, the value escaped.
pub open spec fn head_spec(attrs: Seq<(&str, String)>) -> Seq<char>
    decreases attrs.len(),
{
    if attrs.len() == 0 {
        seq![]
    } else {
        let (k, v) = attrs.last();
        head_spec(attrs.drop_last()) + " "@ + k@ + "=\""@ + attr_spec(v@) + "\""@
    }
}

/// Two spaces per level.
pub open spec fn indent(depth: nat) -> Seq<char> {
    Seq::new(2 * depth, |i: int| ' ')
}

/// Each part on a line of its own, indented.
pub open spec fn lines(parts: Seq<Seq<char>>, pad: Seq<char>) -> Seq<char>
    decreases parts.len(),
{
    if parts.len() == 0 {
        seq![]
    } else {
        lines(parts.drop_last(), pad) + pad + parts.last() + seq!['\n']
    }
}

pub open spec fn is_elem(n: Node) -> bool {
    n is Elem
}

/// A node rendered at `depth`: text and CDATA escaped; an element with no
/// children self-closing; one that holds only character data, or one child
/// that fits on a line, inline; anything else one child per indented line.
pub open spec fn render_spec(n: Node, depth: nat) -> Seq<char>
    decreases n, 1nat, 0int,
{
    match n {
        Node::Text(s) => text_spec(s@),
        Node::CData(s) => cdata_spec(s@),
        Node::Elem { name, attrs, children } => {
            let head = head_spec(attrs@);
            if children@.len() == 0 {
                "<"@ + name@ + head + " />"@
            } else {
                let parts = parts_spec(n, children@, depth + 1, children@.len() as int);
                let character_data = forall|k: int| 0 <= k < children@.len() ==> !is_elem(
                    #[trigger] children@[k],
                );
                let single_line = parts.len() == 1 && !parts[0].contains('\n');
                if character_data || single_line {
                    "<"@ + name@ + head + ">"@ + parts.flatten() + "</"@ + name@ + ">"@
                } else {
                    "<"@ + name@ + head + ">\n"@ + lines(parts, indent(depth + 1)) + indent(depth)
                        + "</"@ + name@ + ">"@
                }
            }
        },
    }
}

pub open spec fn elem_children(n: Node, children: Seq<Node>) -> bool {
    match n {
        Node::Elem { children: c, .. } => c@ == children,
        _ => false,
    }
}

/// The first `k` children of the element `n`, each rendered at `depth`.
pub open spec fn parts_spec(n: Node, children: Seq<Node>, depth: nat, k: int) -> Seq<Seq<char>>
    decreases n, 0nat, k,
{
    if k <= 0 || k > children.len() || !elem_children(n, children) {
        seq![]
    } else {
        proof {
            assert(decreases_to!(n => children[k - 1]));
        }
        parts_spec(n, children, depth, k - 1).push(render_spec(children[k - 1], depth))
    }
}


/// How many elements deep `n` nests.
pub open spec fn height(n: Node) -> nat
    decreases n, 1nat, 0int,
{
    match n {
        Node::Elem { children, .. } => 1 + max_height(n, children@, children@.len() as int),
        _ => 0,
    }
}

/// The greatest height among the first `k` children of the element `n`.
pub open spec fn max_height(n: Node, children: Seq<Node>, k: int) -> nat
    decreases n, 0nat, k,
{
    if k <= 0 || k > children.len() || !elem_children(n, children) {
        0
    } else {
        proof {
            assert(decreases_to!(n => children[k - 1]));
        }
        let a = max_height(n, children, k - 1);
        let b = height(children[k - 1]);
        if a < b { b } else { a }
    }
}

proof fn lemma_max_height(n: Node, children: Seq<Node>, k: int, j: int)
    requires
        0 <= j < k <= children.len(),
        elem_children(n, children),
    ensures
        height(children[j]) <= max_height(n, children, k),
    decreases k,
{
    if j < k - 1 {
        lemma_max_height(n, children, k - 1, j);
    }
}

pub open spec fn strings_view(v: Seq<String>) -> Seq<Seq<char>> {
    v.map_values(|s: String| s@)
}

/// Appends two spaces per level.
fn push_indent(out: &mut String, depth: usize)
    ensures
        final(out)@ == old(out)@ + indent(depth as nat),
{
    let ghost start = out@;
    let mut j: usize = 0;
    while j < depth
        invariant
            j <= depth,
            out@ == start + Seq::new(2 * j as nat, |i: int| ' '),
        decreases depth - j,
    {
        push_str(out, "  ");
        proof { reveal_strlit("  "); }
        assert(out@ =~= start + Seq::new(2 * (j + 1) as nat, |i: int| ' '));
        j += 1;
    }
}

/// A node rendered at `depth`.
pub fn render(node: &Node, depth: usize) -> (r: String)
    requires
        depth + height(*node) < usize::MAX,
    ensures
        r@ == render_spec(*node, depth as nat),
    decreases node,
{
    match node {
        Node::Text(s) => text(s.as_str()).to_string(),
        Node::CData(s) => cdata(s.as_str()).to_string(),
        Node::Elem { name, attrs, children } => {
            let mut head = String::new();
            let mut k: usize = 0;
            while k < attrs.len()
                invariant
                    k <= attrs@.len(),
                    head@ == head_spec(attrs@.subrange(0, k as int)),
                decreases attrs@.len() - k,
            {
                push_str(&mut head, " ");
                push_str(&mut head, attrs[k].0);
                push_str(&mut head, "=\"");
                let v = attr(attrs[k].1.as_str()).to_string();
                push_str(&mut head, v.as_str());
                push_str(&mut head, "\"");
                assert(attrs@.subrange(0, k + 1).drop_last() =~= attrs@.subrange(0, k as int));
                k += 1;
            }
            assert(attrs@.subrange(0, attrs@.len() as int) =~= attrs@);
            let mut out = String::new();
            push_str(&mut out, "<");
            push_str(&mut out, name);
            push_str(&mut out, head.as_str());
            if children.len() == 0 {
                push_str(&mut out, " />");
                return out;
            }
            let mut parts: Vec<String> = Vec::new();
            let mut k: usize = 0;
            while k < children.len()
                invariant
                    k <= children@.len(),
                    *node matches Node::Elem { children: c, .. } && c == children,
                    depth + height(*node) < usize::MAX,
                    height(*node) == 1 + max_height(*node, children@, children@.len() as int),
                    strings_view(parts@) == parts_spec(*node, children@, (depth + 1) as nat, k as int),
                decreases children@.len() - k,
            {
                proof {
                    lemma_max_height(*node, children@, children@.len() as int, k as int);
                }
                let p = render(&children[k], depth + 1);
                let ghost before = strings_view(parts@);
                parts.push(p);
                assert(strings_view(parts@) =~= before.push(p@));
                k += 1;
            }
            let ghost pv = strings_view(parts@);
            // Character data only, or one part that fits on a line: inline.
            let mut character_data = true;
            let mut k: usize = 0;
            while k < children.len()
                invariant
                    k <= children@.len(),
                    character_data == forall|j: int| 0 <= j < k ==> !is_elem(#[trigger] children@[j]),
                decreases children@.len() - k,
            {
                match &children[k] {
                    Node::Elem { .. } => {
                        character_data = false;
                    },
                    _ => {},
                }
                k += 1;
            }
            let mut single_line = false;
            if parts.len() == 1 {
                let cs = chars_of(parts[0].as_str());
                proof { crate::text::lemma_find_char_bounds(cs@, 0, cs@.len() as int, '\n'); }
                single_line = crate::text::find_char(&cs, 0, cs.len(), '\n').is_none();
                proof {
                    assert(pv[0] == cs@);
                    if single_line {
                        assert(!pv[0].contains('\n'));
                    } else {
                        let k = choose|k: int| 0 <= k < cs@.len() && cs@[k] == '\n';
                        assert(pv[0][k] == '\n');
                    }
                }
            }
            if character_data || single_line {
                push_str(&mut out, ">");
                let mut k: usize = 0;
                while k < parts.len()
                    invariant
                        k <= parts@.len(),
                        pv == strings_view(parts@),
                        out@ == "<"@ + name@ + head@ + ">"@ + pv.subrange(0, k as int).flatten(),
                    decreases parts@.len() - k,
                {
                    push_str(&mut out, parts[k].as_str());
                    proof {
                        assert(pv.subrange(0, k + 1) =~= pv.subrange(0, k as int).push(pv[k as int]));
                        pv.subrange(0, k as int).lemma_flatten_push(pv[k as int]);
                    }
                    k += 1;
                }
                assert(pv.subrange(0, pv.len() as int) =~= pv);
            } else {
                push_str(&mut out, ">\n");
                let mut k: usize = 0;
                while k < parts.len()
                    invariant
                        k <= parts@.len(),
                        pv == strings_view(parts@),
                        depth < usize::MAX,
                        out@ == "<"@ + name@ + head@ + ">\n"@ + lines(
                            pv.subrange(0, k as int),
                            indent(depth as nat + 1),
                        ),
                    decreases parts@.len() - k,
                {
                    push_indent(&mut out, depth + 1);
                    push_str(&mut out, parts[k].as_str());
                    push_str(&mut out, "\n");
                    proof { reveal_strlit("\n"); }
                    assert(pv[k as int] == parts@[k as int]@);
                    assert(pv.subrange(0, k + 1).drop_last() =~= pv.subrange(0, k as int));
                    assert(pv.subrange(0, k + 1).last() == pv[k as int]);
                    k += 1;
                }
                assert(pv.subrange(0, pv.len() as int) =~= pv);
                push_indent(&mut out, depth);
            }
            push_str(&mut out, "</");
            push_str(&mut out, name);
            push_str(&mut out, ">");
            out
        },
    }
}


/// The XML declaration, the root element, and a final newline.
pub fn document(root: &Node) -> (r: String)
    requires
        height(*root) < usize::MAX,
    ensures
        r@ == "<?xml version=\"1.0\" encoding=\"UTF-8\"?>\n"@ + render_spec(*root, 0) + "\n"@,
{
    let mut out = String::new();
    push_str(&mut out, "<?xml version=\"1.0\" encoding=\"UTF-8\"?>\n");
    let body = render(root, 0);
    push_str(&mut out, body.as_str());
    push_str(&mut out, "\n");
    out
}


/// Whether `pat` occurs in `s` at `i`.
fn pat_at(s: &[char], i: usize, pat: &[char]) -> (r: bool)
    requires
        i <= s@.len(),
    ensures
        r == at_pat(s@, i as int, s@.len() as int, pat@),
{
    let n = pat.len();
    if n > s.len() - i {
        return false;
    }
    let mut k: usize = 0;
    assert(s@.len() == s.len());
    while k < n
        invariant
            i + n <= s@.len() <= usize::MAX,
            k <= n == pat@.len(),
            forall|j: int| 0 <= j < k ==> s@[i + j] == pat@[j],
        decreases n - k,
    {
        if s[i + k] != pat[k] {
            assert(s@.subrange(i as int, i + n)[k as int] != pat@[k as int]);
            return false;
        }
        k += 1;
    }
    assert(s@.subrange(i as int, i + n) =~= pat@);
    true
}

/// `s` with every `pat` replaced by `rep`, left to right: `str::replace`.
pub(crate) fn replace_all(s: &[char], pat: &[char], rep: &str) -> (r: String)
    requires
        pat@.len() > 0,
    ensures
        r@ == replace_from(s@, 0, pat@, rep@),
{
    let mut out = String::new();
    let mut i: usize = 0;
    let n = pat.len();
    while i < s.len()
        invariant
            i <= s@.len(),
            n == pat@.len() > 0,
            replace_from(s@, 0, pat@, rep@) == out@ + replace_from(s@, i as int, pat@, rep@),
        decreases s@.len() - i,
    {
        let ghost before = out@;
        let hit = pat_at(s, i, pat);
        if hit {
            push_str(&mut out, rep);
            assert(before + replace_from(s@, i as int, pat@, rep@) =~= out@ + replace_from(s@, i + n, pat@, rep@));
            i += n;
        } else {
            push_char(&mut out, s[i]);
            assert(before + replace_from(s@, i as int, pat@, rep@) =~= out@ + replace_from(s@, i + 1, pat@, rep@));
            i += 1;
        }
    }
    assert(out@ + replace_from(s@, i as int, pat@, rep@) =~= out@);
    out
}

} // verus!
