//! Deliberately partial syntax highlighting.
//!
//! Follows Tonsky's *Syntax Highlighting* <https://tonsky.me/blog/syntax-highlighting/>:
//! "if everything is highlighted, nothing is highlighted". Coloured are the
//! things a reader looks *for* -- strings and numbers, comments, constants, and
//! the name a definition introduces. Keywords, variables, calls and types are
//! not, which is most of every block, by design.
//!
//! Five classes, coloured by `static/highlight.css` from the site's palette:
//!
//! ```text
//! str  strings, characters, numbers
//! com  comments
//! con  ALL_CAPS constants
//! def  the name a definition introduces
//! pun  punctuation, dimmed so names stand out
//! ```
//!
//! Everything is still lexed properly even though most tokens end up unstyled:
//! a `#` inside a string does not open a comment, and a quote inside a comment
//! does not open a string.
use vstd::prelude::*;

use crate::html::{named, named_spec};
use crate::text::{
    alnum, alpha, at_pat, chars_of, digit, find_char, find_char_spec, is_ascii_alnum,
    is_ascii_alpha, is_ascii_digit, is_ascii_upper, lemma_find_char_bounds, push_char, push_str,
    range_eq, range_eq_ignore_case, eq_ignore_case, lower, starts_at, upper,
};

verus! {

/// A language this lexer knows. Comment syntax is the only reason one fixed
/// lexer will not do -- OCaml nests `(* *)`, shell uses `#`, assembly uses `;`.
#[derive(Clone, Copy, PartialEq, Eq, Structural)]
pub enum Lang {
    Rust,
    OCaml,
    Js,
    Go,
    Shell,
    Asm,
}

/// Prefixes that comment out the rest of the line.
pub open spec fn line_prefixes(l: Lang) -> Seq<Seq<char>> {
    match l {
        Lang::Rust | Lang::Js | Lang::Go => seq!["//"@],
        Lang::OCaml => seq![],
        Lang::Shell => seq!["#"@],
        Lang::Asm => seq![";"@, "//"@],
    }
}

/// The delimiters of a block comment.
pub open spec fn block_of(l: Lang) -> Option<(Seq<char>, Seq<char>)> {
    match l {
        Lang::Rust | Lang::Js | Lang::Go => Some(("/*"@, "*/"@)),
        Lang::OCaml => Some(("(*"@, "*)"@)),
        _ => None,
    }
}

/// OCaml and Rust nest block comments.
pub open spec fn nested(l: Lang) -> bool {
    l is Rust || l is OCaml
}

pub const RUST_DEFINES: [&'static str; 9] = [
    "fn", "struct", "enum", "trait", "type", "mod", "const", "static", "union",
];

/// `rec` is listed so `let rec f` names `f`: an introducer never names an
/// introducer, so the two chain.
pub const OCAML_DEFINES: [&'static str; 7] = ["let", "rec", "and", "type", "module", "val", "exception"];

pub const JS_DEFINES: [&'static str; 3] = ["function", "class", "const"];

pub const GO_DEFINES: [&'static str; 5] = ["func", "type", "package", "const", "var"];

pub const NO_DEFINES: [&'static str; 0] = [];

/// Words that introduce a definition. The word itself stays unstyled and the
/// identifier following it is the name.
pub open spec fn defines(l: Lang) -> Seq<&'static str> {
    match l {
        Lang::Rust => RUST_DEFINES@,
        Lang::OCaml => OCAML_DEFINES@,
        Lang::Js => JS_DEFINES@,
        Lang::Go => GO_DEFINES@,
        _ => NO_DEFINES@,
    }
}

/// `name` is exactly one of `set`.
pub open spec fn listed(name: Seq<char>, set: Seq<&str>) -> bool {
    exists|k: int| 0 <= k < set.len() && #[trigger] set[k]@ == name
}

/// Delimiters that open a string. A `'` that is not one opens a character
/// literal instead, which leaves a Rust lifetime and an OCaml type variable
/// alone.
pub open spec fn quotes(l: Lang) -> Seq<char> {
    match l {
        Lang::Rust | Lang::OCaml | Lang::Asm => seq!['"'],
        Lang::Js => seq!['"', '\'', '`'],
        Lang::Go => seq!['"', '`'],
        Lang::Shell => seq!['"', '\''],
    }
}

/// ALL_CAPS is a constant in every language here except assembly, where it is
/// how mnemonics are written.
pub open spec fn caps(l: Lang) -> bool {
    !(l is Asm)
}

pub const RUST_NAMES: [&'static str; 2] = ["rust", "rs"];

pub const OCAML_NAMES: [&'static str; 3] = ["ocaml", "ml", "mli"];

pub const JS_NAMES: [&'static str; 8] = [
    "javascript", "js", "jsx", "mjs", "cjs", "typescript", "ts", "tsx",
];

pub const GO_NAMES: [&'static str; 1] = ["go"];

pub const SHELL_NAMES: [&'static str; 7] = [
    "bash", "sh", "shell", "zsh", "console", "shell-session", "sh-session",
];

pub const ASM_NAMES: [&'static str; 3] = ["asm", "nasm", "x86asm"];

/// The info-string words that select each language.
pub open spec fn lang_names(l: Lang) -> Seq<&'static str> {
    match l {
        Lang::Rust => RUST_NAMES@,
        Lang::OCaml => OCAML_NAMES@,
        Lang::Js => JS_NAMES@,
        Lang::Go => GO_NAMES@,
        Lang::Shell => SHELL_NAMES@,
        Lang::Asm => ASM_NAMES@,
    }
}

pub open spec fn all_langs() -> Seq<Lang> {
    seq![Lang::Rust, Lang::OCaml, Lang::Js, Lang::Go, Lang::Shell, Lang::Asm]
}

pub open spec fn names_lang(l: Lang, name: Seq<char>) -> bool {
    named_spec(name, lang_names(l))
}

/// The first language among `all_langs()[k..]` that `name` selects.
pub open spec fn lang_from(name: Seq<char>, k: int) -> Option<Lang>
    decreases 6 - k,
{
    if !(0 <= k < 6) {
        None
    } else if names_lang(all_langs()[k], name) {
        Some(all_langs()[k])
    } else {
        lang_from(name, k + 1)
    }
}

// -- Output -------------------------------------------------------------------

/// What a piece of source is coloured as.
#[derive(Clone, Copy, PartialEq, Eq, Structural)]
pub enum Paint {
    Plain,
    Str,
    Com,
    Con,
    Def,
    Pun,
}

pub open spec fn paint_name(p: Paint) -> Seq<char> {
    match p {
        Paint::Str => "str"@,
        Paint::Com => "com"@,
        Paint::Con => "con"@,
        Paint::Def => "def"@,
        Paint::Pun => "pun"@,
        Paint::Plain => ""@,
    }
}

/// `s[a..b]`, painted.
pub type Piece = (Paint, int, int);

/// The three characters that change meaning in element content.
pub open spec fn esc_char(c: char) -> Seq<char> {
    if c == '&' {
        "&amp;"@
    } else if c == '<' {
        "&lt;"@
    } else if c == '>' {
        "&gt;"@
    } else {
        seq![c]
    }
}

pub open spec fn esc_spec(s: Seq<char>) -> Seq<char>
    decreases s.len(),
{
    if s.len() == 0 {
        seq![]
    } else {
        esc_spec(s.drop_last()) + esc_char(s.last())
    }
}

pub open spec fn piece_out(s: Seq<char>, p: Piece) -> Seq<char> {
    let text = esc_spec(s.subrange(p.1, p.2));
    if p.0 is Plain {
        text
    } else {
        "<span class=\""@ + paint_name(p.0) + "\">"@ + text + "</span>"@
    }
}

pub open spec fn out_spec(s: Seq<char>, ps: Seq<Piece>) -> Seq<char>
    decreases ps.len(),
{
    if ps.len() == 0 {
        seq![]
    } else {
        out_spec(s, ps.drop_last()) + piece_out(s, ps.last())
    }
}

// -- Token kinds --------------------------------------------------------------

/// Past the end of a block comment whose body continues at `j` at `depth`;
/// an unterminated one runs to the end of the block.
pub open spec fn block_end(s: Seq<char>, j: int, depth: int, open: Seq<char>, close: Seq<char>, nest: bool) -> int
    decreases s.len() - j,
{
    if !(0 <= j < s.len()) || open.len() == 0 || close.len() == 0 {
        s.len() as int
    } else if at_pat(s, j, s.len() as int, close) {
        if depth <= 1 {
            j + close.len()
        } else {
            block_end(s, j + close.len(), depth - 1, open, close, nest)
        }
    } else if nest && at_pat(s, j, s.len() as int, open) {
        block_end(s, j + open.len(), depth + 1, open, close, nest)
    } else {
        block_end(s, j + 1, depth, open, close, nest)
    }
}

pub open spec fn line_comment_at(s: Seq<char>, i: int, l: Lang) -> bool {
    exists|k: int| 0 <= k < line_prefixes(l).len() && at_pat(s, i, s.len() as int, #[trigger] line_prefixes(l)[k])
}

/// Where the comment that starts at `i` ends, if one does.
pub open spec fn comment_spec(s: Seq<char>, i: int, l: Lang) -> Option<int> {
    if line_comment_at(s, i, l) {
        match find_char_spec(s, i, s.len() as int, '\n') {
            Some(k) => Some(k),
            None => Some(s.len() as int),
        }
    } else {
        match block_of(l) {
            Some((open, close)) => if at_pat(s, i, s.len() as int, open) {
                Some(block_end(s, i + open.len(), 1, open, close, nested(l)))
            } else {
                None
            },
            None => None,
        }
    }
}

/// Past the end of a string whose body continues at `j`, closed by `q`.
pub open spec fn string_end(s: Seq<char>, j: int, stop: int, q: char) -> int
    decreases s.len() + 2 - j,
{
    if !(0 <= j < stop && stop <= s.len()) {
        stop
    } else if s[j] == '\\' {
        string_end(s, j + 1 + if j + 1 < s.len() { 1int } else { 0int }, stop, q)
    } else if s[j] == q {
        j + 1
    } else {
        string_end(s, j + 1, stop, q)
    }
}

/// The end of a run of ASCII letters and digits from `j`.
pub open spec fn alnum_end(s: Seq<char>, j: int) -> int
    decreases s.len() - j,
{
    if 0 <= j < s.len() && is_ascii_alnum(s[j]) {
        alnum_end(s, j + 1)
    } else {
        j
    }
}

/// `'x'`, `'\n'`, `'\x41'` -- but not `'a`, which is a Rust lifetime or an
/// OCaml type variable.
pub open spec fn char_literal_spec(s: Seq<char>, i: int) -> Option<int> {
    let len = s.len() as int;
    let after = if i + 1 < len && s[i + 1] == '\\' {
        let k = i + 2 + if i + 2 < len { 1int } else { 0int };
        alnum_end(s, k)
    } else {
        i + 1 + if i + 1 < len { 1int } else { 0int }
    };
    if after < len && s[after] == '\'' {
        Some(after + 1)
    } else {
        None
    }
}

/// Where the string or character literal that starts at `i` ends, if one
/// does. A backtick spans lines; a quote stops at the end of its line.
pub open spec fn quoted_spec(s: Seq<char>, i: int, l: Lang) -> Option<int> {
    if !(0 <= i < s.len()) {
        None
    } else {
        let c = s[i];
        if c == '\'' && !quotes(l).contains('\'') {
            char_literal_spec(s, i)
        } else if !quotes(l).contains(c) {
            None
        } else {
            let stop = if c == '`' {
                s.len() as int
            } else {
                match find_char_spec(s, i, s.len() as int, '\n') {
                    Some(k) => k,
                    None => s.len() as int,
                }
            };
            Some(string_end(s, i + 1, stop, c))
        }
    }
}

/// Digits, then whatever letters and underscores belong to the literal. A `.`
/// only when a digit follows it.
pub open spec fn number_end(s: Seq<char>, j: int) -> int
    decreases s.len() - j,
{
    if !(0 <= j < s.len()) {
        j
    } else if is_ascii_alnum(s[j]) || s[j] == '_' {
        number_end(s, j + 1)
    } else if s[j] == '.' && j + 1 < s.len() && is_ascii_digit(s[j + 1]) {
        number_end(s, j + 1)
    } else {
        j
    }
}

pub open spec fn is_ident_start(c: char) -> bool {
    is_ascii_alpha(c) || c == '_'
}

/// The end of an identifier from `j`. A trailing `'` belongs to the name where
/// it is not a string delimiter: OCaml's `lt'` is one identifier.
pub open spec fn ident_end(s: Seq<char>, j: int, l: Lang) -> int
    decreases s.len() - j,
{
    if 0 <= j < s.len() && (is_ascii_alnum(s[j]) || s[j] == '_' || (!quotes(l).contains('\'')
        && s[j] == '\'')) {
        ident_end(s, j + 1, l)
    } else {
        j
    }
}

/// Entirely uppercase, digits and underscores, with at least one uppercase
/// letter and two characters.
pub open spec fn is_const(name: Seq<char>) -> bool {
    &&& name.len() >= 2
    &&& exists|k: int| 0 <= k < name.len() && is_ascii_upper(#[trigger] name[k])
    &&& forall|k: int| 0 <= k < name.len() ==> (is_ascii_upper(#[trigger] name[k]) || is_ascii_digit(name[k])
        || name[k] == '_')
}

pub open spec fn is_ascii_punct(c: char) -> bool {
    ('!' <= c && c <= '/') || (':' <= c && c <= '@') || ('[' <= c && c <= '`') || ('{' <= c && c
        <= '~')
}

pub open spec fn is_pun(c: char) -> bool {
    is_ascii_punct(c) && c != '"' && c != '\'' && c != '`' && c != '_'
}

/// A run of punctuation, stopping where a comment begins.
pub open spec fn pun_end(s: Seq<char>, j: int, l: Lang) -> int
    decreases s.len() - j,
{
    if 0 <= j < s.len() && is_pun(s[j]) && comment_spec(s, j, l) is None {
        pun_end(s, j + 1, l)
    } else {
        j
    }
}

/// The end of a run of spaces and tabs from `j`.
pub open spec fn gap_end(s: Seq<char>, j: int) -> int
    decreases s.len() - j,
{
    if 0 <= j < s.len() && (s[j] == ' ' || s[j] == '\t') {
        gap_end(s, j + 1)
    } else {
        j
    }
}

/// An identifier and, when it introduces a definition, the name that follows.
pub open spec fn word_spec(s: Seq<char>, i: int, l: Lang) -> (Seq<Piece>, int) {
    let n = ident_end(s, i, l);
    let name = s.subrange(i, n);
    if !listed(name, defines(l)) {
        if caps(l) && is_const(name) {
            (seq![(Paint::Con, i, n)], n)
        } else {
            (seq![(Paint::Plain, i, n)], n)
        }
    } else {
        let a = gap_end(s, n);
        let m = ident_end(s, a, l);
        if a < s.len() && is_ident_start(s[a]) && !listed(s.subrange(a, m), defines(l)) {
            (seq![(Paint::Plain, i, n), (Paint::Plain, n, a), (Paint::Def, a, m)], m)
        } else {
            (seq![(Paint::Plain, i, n)], n)
        }
    }
}

/// The token at `i`, as painted pieces, and where the next one starts.
pub open spec fn step_spec(s: Seq<char>, i: int, l: Lang) -> (Seq<Piece>, int) {
    let c = s[i];
    match comment_spec(s, i, l) {
        Some(e) => (seq![(Paint::Com, i, e)], e),
        None => match quoted_spec(s, i, l) {
            Some(e) => (seq![(Paint::Str, i, e)], e),
            None => if is_ascii_digit(c) {
                let e = number_end(s, i);
                (seq![(Paint::Str, i, e)], e)
            } else if is_ident_start(c) {
                word_spec(s, i, l)
            } else if is_pun(c) {
                let e = pun_end(s, i + 1, l);
                (seq![(Paint::Pun, i, e)], e)
            } else {
                (seq![(Paint::Plain, i, i + 1)], i + 1)
            },
        },
    }
}

/// The pieces of `s` from `i` on.
pub open spec fn pieces_from(s: Seq<char>, i: int, l: Lang) -> Seq<Piece>
    decreases s.len() - i,
{
    if !(0 <= i < s.len()) {
        seq![]
    } else {
        let (ps, next) = step_spec(s, i, l);
        if next <= i || next > s.len() {
            seq![]
        } else {
            ps + pieces_from(s, next, l)
        }
    }
}

/// The contents of one `<code>` element: escaped, and marked up if the
/// language is one we lex.
pub open spec fn render_spec(code: Seq<char>, name: Seq<char>) -> Seq<char> {
    match lang_from(name, 0) {
        Some(l) => out_spec(code, pieces_from(code, 0, l)),
        None => esc_spec(code),
    }
}

/// The code the pieces cover, piece after piece.
pub open spec fn pieces_text(s: Seq<char>, ps: Seq<Piece>) -> Seq<char>
    decreases ps.len(),
{
    if ps.len() == 0 {
        seq![]
    } else {
        pieces_text(s, ps.drop_last()) + s.subrange(ps.last().1, ps.last().2)
    }
}

proof fn lemma_pieces_text_append(s: Seq<char>, a: Seq<Piece>, b: Seq<Piece>)
    ensures
        pieces_text(s, a + b) == pieces_text(s, a) + pieces_text(s, b),
    decreases b.len(),
{
    if b.len() == 0 {
        assert(a + b =~= a);
    } else {
        lemma_pieces_text_append(s, a, b.drop_last());
        assert((a + b).drop_last() =~= a + b.drop_last());
        assert((a + b).last() == b.last());
    }
}

proof fn lemma_block_end(s: Seq<char>, j: int, depth: int, open: Seq<char>, close: Seq<char>, nest: bool)
    requires
        0 <= j <= s.len(),
    ensures
        j <= block_end(s, j, depth, open, close, nest) <= s.len(),
    decreases s.len() - j,
{
    if !(0 <= j < s.len()) || open.len() == 0 || close.len() == 0 {
    } else if at_pat(s, j, s.len() as int, close) {
        if depth > 1 {
            lemma_block_end(s, j + close.len(), depth - 1, open, close, nest);
        }
    } else if nest && at_pat(s, j, s.len() as int, open) {
        lemma_block_end(s, j + open.len(), depth + 1, open, close, nest);
    } else {
        lemma_block_end(s, j + 1, depth, open, close, nest);
    }
}

proof fn lemma_string_end(s: Seq<char>, j: int, stop: int, q: char)
    requires
        0 <= j,
        stop <= s.len(),
    ensures
        string_end(s, j, stop, q) <= stop,
        j <= stop ==> j <= string_end(s, j, stop, q),
    decreases s.len() + 2 - j,
{
    if !(0 <= j < stop && stop <= s.len()) {
    } else if s[j] == '\\' {
        lemma_string_end(s, j + 1 + if j + 1 < s.len() { 1int } else { 0int }, stop, q);
    } else if s[j] == q {
    } else {
        lemma_string_end(s, j + 1, stop, q);
    }
}

proof fn lemma_alnum_end(s: Seq<char>, j: int)
    requires
        0 <= j,
    ensures
        j <= alnum_end(s, j),
        j <= s.len() ==> alnum_end(s, j) <= s.len(),
    decreases s.len() - j,
{
    if 0 <= j < s.len() && is_ascii_alnum(s[j]) {
        lemma_alnum_end(s, j + 1);
    }
}

proof fn lemma_number_end(s: Seq<char>, j: int)
    requires
        0 <= j <= s.len(),
    ensures
        j <= number_end(s, j) <= s.len(),
    decreases s.len() - j,
{
    if 0 <= j < s.len() && (is_ascii_alnum(s[j]) || s[j] == '_' || (s[j] == '.' && j + 1 < s.len()
        && is_ascii_digit(s[j + 1]))) {
        lemma_number_end(s, j + 1);
    }
}

proof fn lemma_ident_end(s: Seq<char>, j: int, l: Lang)
    requires
        0 <= j <= s.len(),
    ensures
        j <= ident_end(s, j, l) <= s.len(),
        j < s.len() && is_ident_start(s[j]) ==> j < ident_end(s, j, l),
    decreases s.len() - j,
{
    if 0 <= j < s.len() && (is_ascii_alnum(s[j]) || s[j] == '_' || (!quotes(l).contains('\'')
        && s[j] == '\'')) {
        lemma_ident_end(s, j + 1, l);
    }
}

proof fn lemma_pun_end(s: Seq<char>, j: int, l: Lang)
    requires
        0 <= j <= s.len(),
    ensures
        j <= pun_end(s, j, l) <= s.len(),
    decreases s.len() - j,
{
    if 0 <= j < s.len() && is_pun(s[j]) && comment_spec(s, j, l) is None {
        lemma_pun_end(s, j + 1, l);
    }
}

proof fn lemma_gap_end(s: Seq<char>, j: int)
    requires
        0 <= j <= s.len(),
    ensures
        j <= gap_end(s, j) <= s.len(),
    decreases s.len() - j,
{
    if 0 <= j < s.len() && (s[j] == ' ' || s[j] == '\t') {
        lemma_gap_end(s, j + 1);
    }
}

proof fn lemma_one_piece(s: Seq<char>, p: Paint, a: int, b: int)
    requires
        0 <= a <= b <= s.len(),
    ensures
        pieces_text(s, seq![(p, a, b)]) == s.subrange(a, b),
{
    assert(seq![(p, a, b)].drop_last() =~= Seq::<Piece>::empty());
    assert(pieces_text(s, Seq::<Piece>::empty()) == Seq::<char>::empty());
    assert(Seq::<char>::empty() + s.subrange(a, b) =~= s.subrange(a, b));
}

proof fn lemma_comment_bounds(s: Seq<char>, i: int, l: Lang)
    requires
        0 <= i < s.len(),
    ensures
        comment_spec(s, i, l) matches Some(e) ==> i < e <= s.len(),
{
    reveal_strlit("//");
    reveal_strlit("#");
    reveal_strlit(";");
    reveal_strlit("/*");
    reveal_strlit("*/");
    reveal_strlit("(*");
    reveal_strlit("*)");
    lemma_find_char_bounds(s, i, s.len() as int, '\n');
    if line_comment_at(s, i, l) {
        let k = choose|k: int| 0 <= k < line_prefixes(l).len() && at_pat(s, i, s.len() as int, #[trigger] line_prefixes(l)[k]);
        assert(s[i] == line_prefixes(l)[k][0]);
    } else {
        match block_of(l) {
            Some((open, close)) => if at_pat(s, i, s.len() as int, open) {
                lemma_block_end(s, i + open.len(), 1, open, close, nested(l));
            },
            None => {},
        }
    }
}

proof fn lemma_quoted_bounds(s: Seq<char>, i: int, l: Lang)
    requires
        0 <= i < s.len(),
    ensures
        quoted_spec(s, i, l) matches Some(e) ==> i < e <= s.len(),
{
    let len = s.len() as int;
    lemma_find_char_bounds(s, i, len, '\n');
    if i + 1 < len && s[i + 1] == '\\' {
        let k = i + 2 + if i + 2 < len { 1int } else { 0int };
        lemma_alnum_end(s, k);
    }
    let c = s[i];
    if !(c == '\'' && !quotes(l).contains('\'')) && quotes(l).contains(c) {
        let stop = if c == '`' {
            len
        } else {
            match find_char_spec(s, i, len, '\n') {
                Some(k) => k,
                None => len,
            }
        };
        if c != '`' {
            assert(c != '\n') by {
                assert(quotes(l).contains(c));
                let w = choose|w: int| 0 <= w < quotes(l).len() && quotes(l)[w] == c;
            }
        }
        lemma_string_end(s, i + 1, stop, c);
    }
}

proof fn lemma_step(s: Seq<char>, i: int, l: Lang)
    requires
        0 <= i < s.len(),
    ensures
        i < step_spec(s, i, l).1 <= s.len(),
        pieces_text(s, step_spec(s, i, l).0) == s.subrange(i, step_spec(s, i, l).1),
{
    lemma_comment_bounds(s, i, l);
    lemma_quoted_bounds(s, i, l);
    let c = s[i];
    match comment_spec(s, i, l) {
        Some(e) => lemma_one_piece(s, Paint::Com, i, e),
        None => match quoted_spec(s, i, l) {
            Some(e) => lemma_one_piece(s, Paint::Str, i, e),
            None => if is_ascii_digit(c) {
                lemma_number_end(s, i);
                lemma_number_end(s, i + 1);
                lemma_one_piece(s, Paint::Str, i, number_end(s, i));
            } else if is_ident_start(c) {
                lemma_ident_end(s, i, l);
                let n = ident_end(s, i, l);
                lemma_gap_end(s, n);
                let a = gap_end(s, n);
                lemma_ident_end(s, a, l);
                let m = ident_end(s, a, l);
                lemma_one_piece(s, Paint::Con, i, n);
                lemma_one_piece(s, Paint::Plain, i, n);
                if a < s.len() && is_ident_start(s[a]) {
                    let three = seq![(Paint::Plain, i, n), (Paint::Plain, n, a), (Paint::Def, a, m)];
                    assert(three.drop_last().drop_last() =~= seq![(Paint::Plain, i, n)]);
                    assert(three.drop_last() =~= seq![(Paint::Plain, i, n), (Paint::Plain, n, a)]);
                    assert(pieces_text(s, three.drop_last()) == s.subrange(i, n) + s.subrange(n, a));
                    assert(pieces_text(s, three) == s.subrange(i, n) + s.subrange(n, a) + s.subrange(a, m));
                    assert(s.subrange(i, n) + s.subrange(n, a) + s.subrange(a, m) =~= s.subrange(i, m));
                }
            } else if is_pun(c) {
                lemma_pun_end(s, i + 1, l);
                lemma_one_piece(s, Paint::Pun, i, pun_end(s, i + 1, l));
            } else {
                lemma_one_piece(s, Paint::Plain, i, i + 1);
            },
        },
    }
}

/// Highlighting only wraps pieces of the code in spans: the pieces the code is
/// cut into are, in order, exactly the code from `i` on.
pub proof fn lemma_pieces_cover(s: Seq<char>, i: int, l: Lang)
    requires
        0 <= i <= s.len(),
    ensures
        pieces_text(s, pieces_from(s, i, l)) == s.subrange(i, s.len() as int),
    decreases s.len() - i,
{
    if i < s.len() {
        lemma_step(s, i, l);
        let (ps, next) = step_spec(s, i, l);
        lemma_pieces_cover(s, next, l);
        lemma_pieces_text_append(s, ps, pieces_from(s, next, l));
        assert(s.subrange(i, next) + s.subrange(next, s.len() as int) =~= s.subrange(i, s.len() as int));
    } else {
        assert(s.subrange(i, s.len() as int) =~= Seq::<char>::empty());
    }
}


// -- Lexing -------------------------------------------------------------------

fn defines_of(l: Lang) -> (r: &'static [&'static str])
    ensures
        r@ == defines(l),
{
    match l {
        Lang::Rust => &RUST_DEFINES,
        Lang::OCaml => &OCAML_DEFINES,
        Lang::Js => &JS_DEFINES,
        Lang::Go => &GO_DEFINES,
        _ => &NO_DEFINES,
    }
}

fn names_of(l: Lang) -> (r: &'static [&'static str])
    ensures
        r@ == lang_names(l),
{
    match l {
        Lang::Rust => &RUST_NAMES,
        Lang::OCaml => &OCAML_NAMES,
        Lang::Js => &JS_NAMES,
        Lang::Go => &GO_NAMES,
        Lang::Shell => &SHELL_NAMES,
        Lang::Asm => &ASM_NAMES,
    }
}

/// The language an info-string word selects, ignoring ASCII case.
fn lang(name: &str) -> (r: Option<Lang>)
    ensures
        r == lang_from(name@, 0),
{
    let cs = chars_of(name);
    assert(cs@.subrange(0, cs@.len() as int) =~= name@);
    let langs = [Lang::Rust, Lang::OCaml, Lang::Js, Lang::Go, Lang::Shell, Lang::Asm];
    assert(langs@ =~= all_langs());
    let mut k: usize = 0;
    while k < 6
        invariant
            k <= 6,
            cs@ == name@,
            cs@.subrange(0, cs@.len() as int) == name@,
            langs@ == all_langs(),
            lang_from(name@, 0) == lang_from(name@, k as int),
        decreases 6 - k,
    {
        let l = langs[k];
        if named(&cs, 0, cs.len(), names_of(l)) {
            return Some(l);
        }
        k += 1;
    }
    None
}

/// `s[a..b]` is exactly one of `set`.
fn listed_at(s: &[char], a: usize, b: usize, set: &[&str]) -> (r: bool)
    requires
        a <= b <= s@.len(),
    ensures
        r == listed(s@.subrange(a as int, b as int), set@),
{
    let mut k: usize = 0;
    while k < set.len()
        invariant
            a <= b <= s@.len(),
            k <= set@.len(),
            forall|j: int| 0 <= j < k ==> (#[trigger] set@[j])@ != s@.subrange(a as int, b as int),
        decreases set@.len() - k,
    {
        if range_eq(s, a, b, set[k]) {
            return true;
        }
        k += 1;
    }
    false
}

/// Appends `s[a..b]`, escaped.
fn push_esc(out: &mut String, s: &[char], a: usize, b: usize)
    requires
        a <= b <= s@.len(),
    ensures
        final(out)@ == old(out)@ + esc_spec(s@.subrange(a as int, b as int)),
{
    let ghost start = out@;
    let mut k = a;
    while k < b
        invariant
            a <= k <= b <= s@.len(),
            out@ == start + esc_spec(s@.subrange(a as int, k as int)),
        decreases b - k,
    {
        let c = s[k];
        if c == '&' {
            push_str(out, "&amp;");
        } else if c == '<' {
            push_str(out, "&lt;");
        } else if c == '>' {
            push_str(out, "&gt;");
        } else {
            push_char(out, c);
        }
        assert(s@.subrange(a as int, k + 1).drop_last() =~= s@.subrange(a as int, k as int));
        k += 1;
    }
}

fn paint_str(p: Paint) -> (r: &'static str)
    ensures
        r@ == paint_name(p),
{
    match p {
        Paint::Str => "str",
        Paint::Com => "com",
        Paint::Con => "con",
        Paint::Def => "def",
        Paint::Pun => "pun",
        Paint::Plain => "",
    }
}

/// Appends a painted piece.
fn push_piece(out: &mut String, s: &[char], p: Paint, a: usize, b: usize)
    requires
        a <= b <= s@.len(),
    ensures
        final(out)@ == old(out)@ + piece_out(s@, (p, a as int, b as int)),
{
    match p {
        Paint::Plain => push_esc(out, s, a, b),
        _ => {
            push_str(out, "<span class=\"");
            push_str(out, paint_str(p));
            push_str(out, "\">");
            push_esc(out, s, a, b);
            push_str(out, "</span>");
        },
    }
}

fn line_comment(s: &[char], i: usize, l: Lang) -> (r: bool)
    requires
        i <= s@.len(),
    ensures
        r == line_comment_at(s@, i as int, l),
{
    let len = s.len();
    match l {
        Lang::Rust | Lang::Js | Lang::Go => {
            let r = starts_at(s, i, len, "//");
            assert(line_prefixes(l)[0] == "//"@);
            r
        },
        Lang::OCaml => false,
        Lang::Shell => {
            let r = starts_at(s, i, len, "#");
            assert(line_prefixes(l)[0] == "#"@);
            r
        },
        Lang::Asm => {
            let r = starts_at(s, i, len, ";") || starts_at(s, i, len, "//");
            assert(line_prefixes(l)[0] == ";"@);
            assert(line_prefixes(l)[1] == "//"@);
            r
        },
    }
}

fn block_delims(l: Lang) -> (r: Option<(&'static str, &'static str)>)
    ensures
        match (r, block_of(l)) {
            (Some((o, c)), Some((o2, c2))) => o@ == o2 && c@ == c2,
            (None, None) => true,
            _ => false,
        },
{
    match l {
        Lang::Rust | Lang::Js | Lang::Go => Some(("/*", "*/")),
        Lang::OCaml => Some(("(*", "*)")),
        _ => None,
    }
}

/// Where the comment that starts at `i` ends, if one does.
fn comment(s: &[char], i: usize, l: Lang) -> (r: Option<usize>)
    requires
        i <= s@.len(),
    ensures
        match r {
            Some(e) => comment_spec(s@, i as int, l) == Some(e as int) && i < e <= s@.len(),
            None => comment_spec(s@, i as int, l) is None,
        },
{
    let len = s.len();
    if line_comment(s, i, l) {
        proof {
            lemma_find_char_bounds(s@, i as int, len as int, '\n');
            let k = choose|k: int| 0 <= k < line_prefixes(l).len() && at_pat(s@, i as int, len as int, #[trigger] line_prefixes(l)[k]);
            reveal_strlit("//");
            reveal_strlit("#");
            reveal_strlit(";");
            assert(line_prefixes(l)[k].len() > 0);
        }
        return match find_char(s, i, len, '\n') {
            Some(k) => {
                if k == i {
                    proof {
                        let j = choose|j: int| 0 <= j < line_prefixes(l).len() && at_pat(s@, i as int, len as int, #[trigger] line_prefixes(l)[j]);
                        reveal_strlit("//");
                        reveal_strlit("#");
                        reveal_strlit(";");
                        assert(s@[i as int] == line_prefixes(l)[j][0]);
                    }
                    assert(false);
                }
                Some(k)
            },
            None => Some(len),
        };
    }
    let (open, close) = match block_delims(l) {
        None => return None,
        Some(d) => d,
    };
    if !starts_at(s, i, len, open) {
        return None;
    }
    proof {
        reveal_strlit("/*");
        reveal_strlit("*/");
        reveal_strlit("(*");
        reveal_strlit("*)");
    }
    let ol = open.unicode_len();
    let cl = close.unicode_len();
    let nest = matches!(l, Lang::Rust | Lang::OCaml);
    let mut j = i + ol;
    let mut depth: usize = 1;
    while j < len
        invariant
            i < j <= len == s@.len(),
            1 <= depth <= j,
            ol == open@.len() == 2,
            cl == close@.len() == 2,
            nest == nested(l),
            block_of(l) == Some((open@, close@)),
            comment_spec(s@, i as int, l) == Some(block_end(s@, j as int, depth as int, open@, close@, nest)),
        decreases len - j,
    {
        if starts_at(s, j, len, close) {
            if depth <= 1 {
                return Some(j + cl);
            }
            j += cl;
            depth -= 1;
        } else if nest && starts_at(s, j, len, open) {
            j += ol;
            depth += 1;
        } else {
            j += 1;
        }
    }
    Some(len)
}


fn quotes_of(l: Lang) -> (r: &'static str)
    ensures
        r@ == quotes(l),
{
    proof {
        reveal_strlit("\"");
        reveal_strlit("\"'`");
        reveal_strlit("\"`");
        reveal_strlit("\"'");
    }
    match l {
        Lang::Rust | Lang::OCaml | Lang::Asm => "\"",
        Lang::Js => "\"'`",
        Lang::Go => "\"`",
        Lang::Shell => "\"'",
    }
}

fn quote_listed(l: Lang, c: char) -> (r: bool)
    ensures
        r == quotes(l).contains(c),
{
    let q = quotes_of(l);
    let n = q.unicode_len();
    let mut k: usize = 0;
    while k < n
        invariant
            k <= n == q@.len(),
            q@ == quotes(l),
            forall|j: int| 0 <= j < k ==> q@[j] != c,
        decreases n - k,
    {
        if q.get_char(k) == c {
            return true;
        }
        k += 1;
    }
    false
}

fn alnum_run(s: &[char], j: usize) -> (r: usize)
    requires
        j <= s@.len(),
    ensures
        r == alnum_end(s@, j as int),
        j <= r <= s@.len(),
{
    let mut k = j;
    while k < s.len() && alnum(s[k])
        invariant
            j <= k <= s@.len(),
            alnum_end(s@, j as int) == alnum_end(s@, k as int),
        decreases s@.len() - k,
    {
        k += 1;
    }
    k
}

fn char_literal(s: &[char], i: usize) -> (r: Option<usize>)
    requires
        i < s@.len(),
    ensures
        match r {
            Some(e) => char_literal_spec(s@, i as int) == Some(e as int) && i < e <= s@.len(),
            None => char_literal_spec(s@, i as int) is None,
        },
{
    let len = s.len();
    let after = if i + 1 < len && s[i + 1] == '\\' {
        let k = i + 2 + if i + 2 < len { 1 } else { 0 };
        alnum_run(s, k)
    } else {
        i + 1 + if i + 1 < len { 1 } else { 0 }
    };
    if after < len && s[after] == '\'' {
        Some(after + 1)
    } else {
        None
    }
}

/// Where the string or character literal that starts at `i` ends, if one does.
fn quoted(s: &[char], i: usize, l: Lang) -> (r: Option<usize>)
    requires
        i < s@.len(),
    ensures
        match r {
            Some(e) => quoted_spec(s@, i as int, l) == Some(e as int) && i < e <= s@.len(),
            None => quoted_spec(s@, i as int, l) is None,
        },
{
    let c = s[i];
    let len = s.len();
    if c == '\'' && !quote_listed(l, '\'') {
        return char_literal(s, i);
    }
    if !quote_listed(l, c) {
        return None;
    }
    let stop = if c == '`' {
        len
    } else {
        proof { lemma_find_char_bounds(s@, i as int, len as int, '\n'); }
        match find_char(s, i, len, '\n') {
            Some(k) => k,
            None => len,
        }
    };
    let mut j = i + 1;
    while j < stop
        invariant
            i < j,
            j <= len + 1,
            i <= stop <= len == s@.len(),
            quoted_spec(s@, i as int, l) == Some(string_end(s@, j as int, stop as int, c)),
        decreases len + 2 - j,
    {
        let ch = s[j];
        if ch == '\\' {
            j = j + 1 + if j + 1 < len { 1 } else { 0 };
            continue;
        }
        j += 1;
        if ch == c {
            return Some(j);
        }
    }
    Some(stop)
}

fn number_end_at(s: &[char], i: usize) -> (r: usize)
    requires
        i <= s@.len(),
    ensures
        r == number_end(s@, i as int),
        i <= r <= s@.len(),
{
    let len = s.len();
    let mut j = i;
    while j < len
        invariant
            i <= j <= len == s@.len(),
            number_end(s@, i as int) == number_end(s@, j as int),
        ensures
            i <= j <= len,
            number_end(s@, i as int) == j,
        decreases len - j,
    {
        let c = s[j];
        if alnum(c) || c == '_' {
            j += 1;
        } else if c == '.' && j + 1 < len && digit(s[j + 1]) {
            j += 1;
        } else {
            break;
        }
    }
    j
}

fn ident_end_at(s: &[char], j: usize, l: Lang) -> (r: usize)
    requires
        j <= s@.len(),
    ensures
        r == ident_end(s@, j as int, l),
        j <= r <= s@.len(),
{
    let prime = !quote_listed(l, '\'');
    let mut k = j;
    while k < s.len() && (alnum(s[k]) || s[k] == '_' || (prime && s[k] == '\''))
        invariant
            j <= k <= s@.len(),
            prime == !quotes(l).contains('\''),
            ident_end(s@, j as int, l) == ident_end(s@, k as int, l),
        decreases s@.len() - k,
    {
        k += 1;
    }
    k
}

fn gap_end_at(s: &[char], j: usize) -> (r: usize)
    requires
        j <= s@.len(),
    ensures
        r == gap_end(s@, j as int),
        j <= r <= s@.len(),
{
    let mut k = j;
    while k < s.len() && (s[k] == ' ' || s[k] == '\t')
        invariant
            j <= k <= s@.len(),
            gap_end(s@, j as int) == gap_end(s@, k as int),
        decreases s@.len() - k,
    {
        k += 1;
    }
    k
}

fn const_at(s: &[char], a: usize, b: usize) -> (r: bool)
    requires
        a <= b <= s@.len(),
    ensures
        r == is_const(s@.subrange(a as int, b as int)),
{
    let ghost name = s@.subrange(a as int, b as int);
    if b - a < 2 {
        return false;
    }
    let mut any_upper = false;
    let mut k = a;
    while k < b
        invariant
            a <= k <= b <= s@.len(),
            name == s@.subrange(a as int, b as int),
            forall|j: int| 0 <= j < k - a ==> (is_ascii_upper(#[trigger] name[j]) || is_ascii_digit(name[j])
                || name[j] == '_'),
            any_upper == exists|j: int| 0 <= j < k - a && is_ascii_upper(#[trigger] name[j]),
        decreases b - k,
    {
        let c = s[k];
        assert(name[k - a] == c);
        if !(upper(c) || digit(c) || c == '_') {
            return false;
        }
        if upper(c) {
            any_upper = true;
        }
        k += 1;
    }
    any_upper
}

fn pun_char(c: char) -> (r: bool)
    ensures
        r == is_pun(c),
{
    (('!' <= c && c <= '/') || (':' <= c && c <= '@') || ('[' <= c && c <= '`') || ('{' <= c && c
        <= '~')) && c != '"' && c != '\'' && c != '`' && c != '_'
}

fn pun_end_at(s: &[char], j: usize, l: Lang) -> (r: usize)
    requires
        j <= s@.len(),
    ensures
        r == pun_end(s@, j as int, l),
        j <= r <= s@.len(),
{
    let mut k = j;
    while k < s.len() && pun_char(s[k]) && comment(s, k, l).is_none()
        invariant
            j <= k <= s@.len(),
            pun_end(s@, j as int, l) == pun_end(s@, k as int, l),
        decreases s@.len() - k,
    {
        k += 1;
    }
    k
}

pub open spec fn pieces_view(v: Seq<(Paint, usize, usize)>) -> Seq<Piece> {
    v.map_values(|p: (Paint, usize, usize)| (p.0, p.1 as int, p.2 as int))
}

/// The token at `i`, as painted pieces, and where the next one starts.
fn step(s: &[char], i: usize, l: Lang) -> (r: (Vec<(Paint, usize, usize)>, usize))
    requires
        i < s@.len(),
    ensures
        (pieces_view(r.0@), r.1 as int) == step_spec(s@, i as int, l),
        i < r.1 <= s@.len(),
        forall|k: int| 0 <= k < r.0@.len() ==> (#[trigger] r.0@[k]).1 <= r.0@[k].2 <= s@.len(),
{
    let c = s[i];
    let mut v: Vec<(Paint, usize, usize)> = Vec::new();
    if let Some(e) = comment(s, i, l) {
        v.push((Paint::Com, i, e));
        assert(pieces_view(v@) =~= seq![(Paint::Com, i as int, e as int)]);
        return (v, e);
    }
    if let Some(e) = quoted(s, i, l) {
        v.push((Paint::Str, i, e));
        assert(pieces_view(v@) =~= seq![(Paint::Str, i as int, e as int)]);
        return (v, e);
    }
    if digit(c) {
        assert(number_end(s@, i as int) == number_end(s@, i + 1));
        let e = number_end_at(s, i + 1);
        v.push((Paint::Str, i, e));
        assert(pieces_view(v@) =~= seq![(Paint::Str, i as int, e as int)]);
        return (v, e);
    }
    if alpha(c) || c == '_' {
        assert(ident_end(s@, i as int, l) == ident_end(s@, i + 1, l));
        let n = ident_end_at(s, i + 1, l);
        if !listed_at(s, i, n, defines_of(l)) {
            let p = if !matches!(l, Lang::Asm) && const_at(s, i, n) { Paint::Con } else { Paint::Plain };
            v.push((p, i, n));
            assert(pieces_view(v@) =~= seq![(p, i as int, n as int)]);
            return (v, n);
        }
        let a = gap_end_at(s, n);
        let m = ident_end_at(s, a, l);
        if a < s.len() && (alpha(s[a]) || s[a] == '_') && !listed_at(s, a, m, defines_of(l)) {
            v.push((Paint::Plain, i, n));
            v.push((Paint::Plain, n, a));
            v.push((Paint::Def, a, m));
            assert(pieces_view(v@) =~= seq![
                (Paint::Plain, i as int, n as int),
                (Paint::Plain, n as int, a as int),
                (Paint::Def, a as int, m as int),
            ]);
            return (v, m);
        }
        v.push((Paint::Plain, i, n));
        assert(pieces_view(v@) =~= seq![(Paint::Plain, i as int, n as int)]);
        return (v, n);
    }
    if pun_char(c) {
        let e = pun_end_at(s, i + 1, l);
        v.push((Paint::Pun, i, e));
        assert(pieces_view(v@) =~= seq![(Paint::Pun, i as int, e as int)]);
        return (v, e);
    }
    // Whitespace, and anything else a keyboard produces.
    v.push((Paint::Plain, i, i + 1));
    assert(pieces_view(v@) =~= seq![(Paint::Plain, i as int, i + 1)]);
    (v, i + 1)
}

proof fn lemma_out_append(s: Seq<char>, a: Seq<Piece>, b: Seq<Piece>)
    ensures
        out_spec(s, a + b) == out_spec(s, a) + out_spec(s, b),
    decreases b.len(),
{
    if b.len() == 0 {
        assert(a + b =~= a);
    } else {
        lemma_out_append(s, a, b.drop_last());
        assert((a + b).drop_last() =~= a + b.drop_last());
        assert((a + b).last() == b.last());
    }
}

fn lex(s: &[char], l: Lang) -> (r: String)
    ensures
        r@ == out_spec(s@, pieces_from(s@, 0, l)),
{
    let mut out = String::new();
    let mut i: usize = 0;
    while i < s.len()
        invariant
            i <= s@.len(),
            out_spec(s@, pieces_from(s@, 0, l)) == out@ + out_spec(s@, pieces_from(s@, i as int, l)),
        decreases s@.len() - i,
    {
        let (ps, next) = step(s, i, l);
        let ghost pv = pieces_view(ps@);
        let ghost before = out@;
        let mut k: usize = 0;
        while k < ps.len()
            invariant
                k <= ps@.len(),
                pv == pieces_view(ps@),
                forall|j: int| 0 <= j < ps@.len() ==> (#[trigger] ps@[j]).1 <= ps@[j].2 <= s@.len(),
                out@ == before + out_spec(s@, pv.subrange(0, k as int)),
            decreases ps@.len() - k,
        {
            let (p, a, b) = ps[k];
            assert(ps@[k as int].1 <= ps@[k as int].2 <= s@.len());
            push_piece(&mut out, s, p, a, b);
            assert(pv.subrange(0, k + 1).drop_last() =~= pv.subrange(0, k as int));
            assert(pv[k as int] == (p, a as int, b as int));
            k += 1;
        }
        assert(pv.subrange(0, pv.len() as int) =~= pv);
        proof {
            lemma_out_append(s@, pv, pieces_from(s@, next as int, l));
        }
        i = next;
    }
    out
}

/// The contents of one `<code>` element: escaped, and marked up if the language
/// is one we lex.
pub fn render(code: &str, name: &str) -> (r: String)
    ensures
        r@ == render_spec(code@, name@),
{
    let cs = chars_of(code);
    match lang(name) {
        Some(l) => lex(&cs, l),
        None => {
            let mut out = String::new();
            push_esc(&mut out, &cs, 0, cs.len());
            assert(cs@.subrange(0, cs@.len() as int) =~= code@);
            out
        },
    }
}

// -- Strings in JavaScript --------------------------------------------------------

proof fn lemma_no_newline(s: Seq<char>, i: int)
    requires
        0 <= i <= s.len(),
        forall|k: int| i <= k < s.len() ==> s[k] != '\n',
    ensures
        find_char_spec(s, i, s.len() as int, '\n') is None,
    decreases s.len() - i,
{
    if i < s.len() {
        lemma_no_newline(s, i + 1);
    }
}

proof fn lemma_string_runs_to(s: Seq<char>, j: int, q: char)
    requires
        1 <= j <= s.len() - 1,
        q != '\\',
        s[s.len() - 1] == q,
        forall|k: int| j <= k < s.len() - 1 ==> s[k] != '\\' && s[k] != q,
    ensures
        string_end(s, j, s.len() as int, q) == s.len(),
    decreases s.len() - j,
{
    if j < s.len() - 1 {
        lemma_string_runs_to(s, j + 1, q);
    }
}

/// `js` selects JavaScript.
proof fn lemma_js_named()
    ensures
        lang_from("js"@, 0) == Some(Lang::Js),
{
    reveal_strlit("js");
    reveal_strlit("rust");
    reveal_strlit("rs");
    reveal_strlit("ocaml");
    reveal_strlit("ml");
    reveal_strlit("mli");
    reveal_strlit("javascript");
    reveal_with_fuel(lang_from, 3);
    let n = "js"@;
    assert(lower(n[0]) == 'j');
    assert(!names_lang(Lang::Rust, n)) by {
        assert(lang_names(Lang::Rust) =~= seq!["rust", "rs"]);
        if names_lang(Lang::Rust, n) {
            let k = choose|k: int| 0 <= k < 2 && eq_ignore_case(n, #[trigger] lang_names(Lang::Rust)[k]@);
            if k == 1 {
                assert(lower("rs"@[0]) == 'r');
            }
        }
    }
    assert(!names_lang(Lang::OCaml, n)) by {
        assert(lang_names(Lang::OCaml) =~= seq!["ocaml", "ml", "mli"]);
        if names_lang(Lang::OCaml, n) {
            let k = choose|k: int| 0 <= k < 3 && eq_ignore_case(n, #[trigger] lang_names(Lang::OCaml)[k]@);
            if k == 1 {
                assert(lower("ml"@[0]) == 'm');
            }
        }
    }
    assert(names_lang(Lang::Js, n)) by {
        assert(lang_names(Lang::Js)[1]@ == n);
        assert(eq_ignore_case(n, lang_names(Lang::Js)[1]@));
    }
    assert(all_langs()[0] == Lang::Rust && all_langs()[1] == Lang::OCaml && all_langs()[2] == Lang::Js);
}

/// A name that differs from every name of `set` in length or first letter is
/// none of them.
proof fn lemma_not_named(name: Seq<char>, set: Seq<&str>)
    requires
        name.len() > 0,
        forall|k: int| 0 <= k < set.len() ==> (#[trigger] set[k])@.len() != name.len() || (
        set[k]@.len() > 0 && lower(set[k]@[0]) != lower(name[0])),
    ensures
        !named_spec(name, set),
{
    if named_spec(name, set) {
        let k = choose|k: int| 0 <= k < set.len() && eq_ignore_case(name, #[trigger] set[k]@);
        assert(lower(name[0]) == lower(set[k]@[0]));
    }
}

proof fn lemma_named_at(name: Seq<char>, set: Seq<&str>, k: int)
    requires
        0 <= k < set.len(),
        set[k]@ == name,
    ensures
        named_spec(name, set),
{
    assert(eq_ignore_case(name, set[k]@));
}

/// A line that is one string opened and closed by `q`, a delimiter of strings
/// in `l`, is painted as one string.
proof fn lemma_one_string(s: Seq<char>, l: Lang, q: char)
    requires
        s.len() >= 2,
        s[0] == q,
        s[s.len() - 1] == q,
        q == '"' || q == '\'' || q == '`',
        quotes(l).contains(q),
        forall|k: int| 1 <= k < s.len() - 1 ==> s[k] != q && s[k] != '\\',
        forall|k: int| 0 <= k < s.len() ==> s[k] != '\n',
    ensures
        out_spec(s, pieces_from(s, 0, l)) == "<span class=\"str\">"@ + esc_spec(s) + "</span>"@,
{
    let n = s.len() as int;
    reveal_strlit("//");
    reveal_strlit("#");
    reveal_strlit(";");
    reveal_strlit("/*");
    reveal_strlit("(*");
    reveal_strlit("<span class=\"");
    reveal_strlit("str");
    reveal_strlit("\">");
    reveal_strlit("<span class=\"str\">");
    assert(!line_comment_at(s, 0, l)) by {
        if line_comment_at(s, 0, l) {
            let k = choose|k: int| 0 <= k < line_prefixes(l).len() && at_pat(s, 0, n, #[trigger] line_prefixes(l)[k]);
            assert(s.subrange(0, line_prefixes(l)[k].len() as int)[0] == s[0]);
        }
    }
    assert(comment_spec(s, 0, l) is None) by {
        match block_of(l) {
            Some((open, close)) => {
                if at_pat(s, 0, n, open) {
                    assert(s.subrange(0, open.len() as int)[0] == s[0]);
                }
            },
            None => {},
        }
    }
    lemma_no_newline(s, 0);
    lemma_string_runs_to(s, 1, q);
    assert(quoted_spec(s, 0, l) == Some(n));
    assert(step_spec(s, 0, l) == (seq![(Paint::Str, 0int, n)], n));
    assert(pieces_from(s, n, l) =~= Seq::<Piece>::empty());
    assert(pieces_from(s, 0, l) =~= seq![(Paint::Str, 0int, n)]);
    let ps = seq![(Paint::Str, 0int, n)];
    assert(ps.drop_last() =~= Seq::<Piece>::empty());
    assert(out_spec(s, ps.drop_last()) =~= Seq::<char>::empty());
    assert(ps.last() == (Paint::Str, 0int, n));
    assert(out_spec(s, ps) =~= piece_out(s, (Paint::Str, 0int, n)));
    assert(s.subrange(0, n) =~= s);
    assert("<span class=\""@ + "str"@ + "\">"@ =~= "<span class=\"str\">"@);
}

/// The line `q` + `body` + `q`.
pub open spec fn quoted_line(q: char, body: Seq<char>) -> Seq<char> {
    seq![q] + body + seq![q]
}

/// `body` holds neither `q`, a backslash nor a line break.
pub open spec fn plain_body(q: char, body: Seq<char>) -> bool {
    forall|k: int| 0 <= k < body.len() ==> body[k] != q && body[k] != '\\' && body[k] != '\n'
}

proof fn lemma_quoted_line(q: char, body: Seq<char>, l: Lang)
    requires
        q == '"' || q == '\'' || q == '`',
        quotes(l).contains(q),
        plain_body(q, body),
    ensures
        out_spec(quoted_line(q, body), pieces_from(quoted_line(q, body), 0, l)) == "<span class=\"str\">"@
            + esc_spec(quoted_line(q, body)) + "</span>"@,
{
    let s = quoted_line(q, body);
    assert forall|k: int| 1 <= k < s.len() - 1 implies s[k] != q && s[k] != '\\' by {
        assert(s[k] == body[k - 1]);
    }
    assert forall|k: int| 0 <= k < s.len() implies s[k] != '\n' by {
        if 1 <= k < s.len() - 1 {
            assert(s[k] == body[k - 1]);
        }
    }
    lemma_one_string(s, l, q);
}

/// In JavaScript `"`, `'` and `` ` `` each open a string that runs to the next
/// one of the same: a line that is one such string is painted as one string,
/// whatever it holds, `//` and `/*` included.
pub proof fn lemma_js_strings(q: char, body: Seq<char>)
    requires
        q == '"' || q == '\'' || q == '`',
        plain_body(q, body),
    ensures
        render_spec(quoted_line(q, body), "js"@) == "<span class=\"str\">"@ + esc_spec(quoted_line(q, body))
            + "</span>"@,
{
    lemma_js_named();
    assert(quotes(Lang::Js)[0] == '"' && quotes(Lang::Js)[1] == '\'' && quotes(Lang::Js)[2] == '`');
    assert(quotes(Lang::Js).contains(q));
    lemma_quoted_line(q, body, Lang::Js);
}

/// In Go `"` and `` ` `` open strings.
pub proof fn lemma_go_strings(q: char, body: Seq<char>)
    requires
        q == '"' || q == '`',
        plain_body(q, body),
    ensures
        render_spec(quoted_line(q, body), "go"@) == "<span class=\"str\">"@ + esc_spec(quoted_line(q, body))
            + "</span>"@,
{
    reveal_strlit("go");
    reveal_strlit("rust");
    reveal_strlit("rs");
    reveal_strlit("ocaml");
    reveal_strlit("ml");
    reveal_strlit("mli");
    reveal_strlit("javascript");
    reveal_strlit("js");
    reveal_strlit("jsx");
    reveal_strlit("mjs");
    reveal_strlit("cjs");
    reveal_strlit("typescript");
    reveal_strlit("ts");
    reveal_strlit("tsx");
    reveal_with_fuel(lang_from, 4);
    let n = "go"@;
    assert(lang_names(Lang::Rust) =~= seq!["rust", "rs"]);
    assert(lang_names(Lang::OCaml) =~= seq!["ocaml", "ml", "mli"]);
    assert(lang_names(Lang::Js) =~= seq!["javascript", "js", "jsx", "mjs", "cjs", "typescript", "ts", "tsx"]);
    lemma_not_named(n, lang_names(Lang::Rust));
    lemma_not_named(n, lang_names(Lang::OCaml));
    lemma_not_named(n, lang_names(Lang::Js));
    lemma_named_at(n, lang_names(Lang::Go), 0);
    assert(all_langs()[3] == Lang::Go);
    assert(lang_from(n, 0) == Some(Lang::Go));
    assert(quotes(Lang::Go)[0] == '"' && quotes(Lang::Go)[1] == '`');
    assert(quotes(Lang::Go).contains(q));
    lemma_quoted_line(q, body, Lang::Go);
}

/// In the shell `"` and `'` open strings, and a `#` inside one opens no
/// comment.
pub proof fn lemma_shell_strings(q: char, body: Seq<char>)
    requires
        q == '"' || q == '\'',
        plain_body(q, body),
    ensures
        render_spec(quoted_line(q, body), "sh"@) == "<span class=\"str\">"@ + esc_spec(quoted_line(q, body))
            + "</span>"@,
{
    reveal_strlit("sh");
    reveal_strlit("go");
    reveal_strlit("rust");
    reveal_strlit("rs");
    reveal_strlit("ocaml");
    reveal_strlit("ml");
    reveal_strlit("mli");
    reveal_strlit("javascript");
    reveal_strlit("js");
    reveal_strlit("jsx");
    reveal_strlit("mjs");
    reveal_strlit("cjs");
    reveal_strlit("typescript");
    reveal_strlit("ts");
    reveal_strlit("tsx");
    reveal_strlit("bash");
    reveal_with_fuel(lang_from, 5);
    let n = "sh"@;
    assert(lang_names(Lang::Rust) =~= seq!["rust", "rs"]);
    assert(lang_names(Lang::OCaml) =~= seq!["ocaml", "ml", "mli"]);
    assert(lang_names(Lang::Js) =~= seq!["javascript", "js", "jsx", "mjs", "cjs", "typescript", "ts", "tsx"]);
    assert(lang_names(Lang::Go) =~= seq!["go"]);
    lemma_not_named(n, lang_names(Lang::Rust));
    lemma_not_named(n, lang_names(Lang::OCaml));
    lemma_not_named(n, lang_names(Lang::Js));
    lemma_not_named(n, lang_names(Lang::Go));
    lemma_named_at(n, lang_names(Lang::Shell), 1);
    assert(all_langs()[4] == Lang::Shell);
    assert(lang_from(n, 0) == Some(Lang::Shell));
    assert(quotes(Lang::Shell)[0] == '"' && quotes(Lang::Shell)[1] == '\'');
    assert(quotes(Lang::Shell).contains(q));
    lemma_quoted_line(q, body, Lang::Shell);
}

/// In Rust a `"` opens a string, and a `//` inside one opens no comment.
pub proof fn lemma_rust_strings(body: Seq<char>)
    requires
        plain_body('"', body),
    ensures
        render_spec(quoted_line('"', body), "rust"@) == "<span class=\"str\">"@ + esc_spec(
            quoted_line('"', body),
        ) + "</span>"@,
{
    reveal_strlit("rust");
    assert(lang_names(Lang::Rust)[0]@ == "rust"@);
    lemma_named_at("rust"@, lang_names(Lang::Rust), 0);
    assert(quotes(Lang::Rust)[0] == '"');
    assert(quotes(Lang::Rust).contains('"'));
    lemma_quoted_line('"', body, Lang::Rust);
}

} // verus!
