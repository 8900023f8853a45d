//! Highlighting adds tags and nothing else: with every tag taken out, the
//! highlighted code reads exactly as the escaped code.
use vstd::prelude::*;

use crate::highlight::{
    esc_char, esc_spec, lang_from, lemma_pieces_cover, out_spec, paint_name, piece_out,
    pieces_from, pieces_text, render_spec, Paint, Piece,
};

verus! {

/// `s` with every tag taken out: from each `<` through the next `>`, or
/// through the end where no `>` follows.
pub open spec fn untagged(s: Seq<char>) -> Seq<char>
    decreases s.len(), 1int,
{
    if s.len() == 0 {
        seq![]
    } else if s[0] == '<' {
        rest_of_tag(s.drop_first())
    } else {
        seq![s[0]] + untagged(s.drop_first())
    }
}

/// What is left of `s` once the tag that it continues has been closed.
pub open spec fn rest_of_tag(s: Seq<char>) -> Seq<char>
    decreases s.len(), 0int,
{
    if s.len() == 0 {
        seq![]
    } else if s[0] == '>' {
        untagged(s.drop_first())
    } else {
        rest_of_tag(s.drop_first())
    }
}

pub open spec fn no_lt(s: Seq<char>) -> bool {
    forall|k: int| 0 <= k < s.len() ==> s[k] != '<'
}

/// Text that opens no tag passes through.
proof fn lemma_untag_text(a: Seq<char>, b: Seq<char>)
    requires
        no_lt(a),
    ensures
        untagged(a + b) == a + untagged(b),
    decreases a.len(),
{
    if a.len() == 0 {
        assert(a + b =~= b);
        assert(a + untagged(b) =~= untagged(b));
    } else {
        let ab = a + b;
        assert(ab[0] == a[0]);
        assert(ab.drop_first() =~= a.drop_first() + b);
        lemma_untag_text(a.drop_first(), b);
        assert(seq![a[0]] + (a.drop_first() + untagged(b)) =~= a + untagged(b));
    }
}

/// The inside of a tag, through its `>`, leaves nothing.
proof fn lemma_tag_body(u: Seq<char>, b: Seq<char>)
    requires
        u.len() > 0,
        u.last() == '>',
        forall|k: int| 0 <= k < u.len() - 1 ==> u[k] != '>',
    ensures
        rest_of_tag(u + b) == untagged(b),
    decreases u.len(),
{
    let ub = u + b;
    assert(ub[0] == u[0]);
    assert(ub.drop_first() =~= u.drop_first() + b);
    if u.len() == 1 {
        assert(u.drop_first() + b =~= b);
    } else {
        lemma_tag_body(u.drop_first(), b);
    }
}

/// A whole tag leaves nothing.
proof fn lemma_tag(t: Seq<char>, b: Seq<char>)
    requires
        t.len() > 1,
        t[0] == '<',
        t.last() == '>',
        forall|k: int| 1 <= k < t.len() - 1 ==> t[k] != '>',
    ensures
        untagged(t + b) == untagged(b),
{
    let tb = t + b;
    assert(tb[0] == '<');
    assert(tb.drop_first() =~= t.drop_first() + b);
    lemma_tag_body(t.drop_first(), b);
}

proof fn lemma_esc_char(c: char)
    ensures
        no_lt(esc_char(c)),
{
    reveal_strlit("&amp;");
    reveal_strlit("&lt;");
    reveal_strlit("&gt;");
}

/// Escaped text opens no tag.
proof fn lemma_esc_no_lt(s: Seq<char>)
    ensures
        no_lt(esc_spec(s)),
    decreases s.len(),
{
    if s.len() > 0 {
        lemma_esc_no_lt(s.drop_last());
        lemma_esc_char(s.last());
        let a = esc_spec(s.drop_last());
        let b = esc_char(s.last());
        assert forall|k: int| 0 <= k < (a + b).len() implies (a + b)[k] != '<' by {
            if k >= a.len() {
                assert((a + b)[k] == b[k - a.len()]);
            }
        }
    }
}

/// Escaping a concatenation escapes each part.
proof fn lemma_esc_append(a: Seq<char>, b: Seq<char>)
    ensures
        esc_spec(a + b) == esc_spec(a) + esc_spec(b),
    decreases b.len(),
{
    if b.len() == 0 {
        assert(a + b =~= a);
        assert(esc_spec(a) + esc_spec(b) =~= esc_spec(a));
    } else {
        let ab = a + b;
        assert(ab.drop_last() =~= a + b.drop_last());
        assert(ab.last() == b.last());
        lemma_esc_append(a, b.drop_last());
        assert(esc_spec(a) + esc_spec(b.drop_last()) + esc_char(b.last()) =~= esc_spec(a) + (
        esc_spec(b.drop_last()) + esc_char(b.last())));
    }
}

/// One piece of highlighted output, with its tags taken out, is its escaped
/// code.
proof fn lemma_piece(s: Seq<char>, p: Piece, rest: Seq<char>)
    ensures
        untagged(piece_out(s, p) + rest) == esc_spec(s.subrange(p.1, p.2)) + untagged(rest),
{
    let text = esc_spec(s.subrange(p.1, p.2));
    lemma_esc_no_lt(s.subrange(p.1, p.2));
    if p.0 is Plain {
        lemma_untag_text(text, rest);
    } else {
        reveal_strlit("<span class=\"");
        reveal_strlit("\">");
        reveal_strlit("</span>");
        reveal_strlit("str");
        reveal_strlit("com");
        reveal_strlit("con");
        reveal_strlit("def");
        reveal_strlit("pun");
        let name = paint_name(p.0);
        let open = "<span class=\""@ + name + "\">"@;
        let close = "</span>"@;
        assert(name.len() == 3);
        assert(forall|k: int| 0 <= k < name.len() ==> name[k] != '>');
        assert(open.len() == 18);
        assert forall|k: int| 1 <= k < open.len() - 1 implies open[k] != '>' by {
            if k >= 13 && k < 16 {
                assert(open[k] == name[k - 13]);
            }
        }
        assert(close.len() == 7);
        assert(piece_out(s, p) + rest =~= open + (text + (close + rest)));
        lemma_tag(close, rest);
        lemma_untag_text(text, close + rest);
        lemma_tag(open, text + (close + rest));
    }
}

/// The output of a run of pieces, with its tags taken out, is the escaped
/// code they cover.
proof fn lemma_out(s: Seq<char>, ps: Seq<Piece>, rest: Seq<char>)
    ensures
        untagged(out_spec(s, ps) + rest) == esc_spec(pieces_text(s, ps)) + untagged(rest),
    decreases ps.len(),
{
    if ps.len() == 0 {
        assert(out_spec(s, ps) + rest =~= rest);
        assert(esc_spec(pieces_text(s, ps)) + untagged(rest) =~= untagged(rest));
    } else {
        let last = ps.last();
        let pre = ps.drop_last();
        assert(ps[ps.len() - 1] == last);
        assert(out_spec(s, ps) + rest =~= out_spec(s, pre) + (piece_out(s, last) + rest));
        lemma_out(s, pre, piece_out(s, last) + rest);
        lemma_piece(s, last, rest);
        lemma_esc_append(pieces_text(s, pre), s.subrange(last.1, last.2));
        assert(esc_spec(pieces_text(s, pre)) + (esc_spec(s.subrange(last.1, last.2)) + untagged(
            rest,
        )) =~= esc_spec(pieces_text(s, pre)) + esc_spec(s.subrange(last.1, last.2)) + untagged(
            rest,
        ));
    }
}

/// Highlighting adds tags and nothing else: take every tag out of the
/// highlighted code and what is left is the code, escaped, whatever the
/// language.
pub proof fn lemma_render_untagged(code: Seq<char>, name: Seq<char>)
    ensures
        untagged(render_spec(code, name)) == esc_spec(code),
{
    lemma_esc_no_lt(code);
    match lang_from(name, 0) {
        Some(l) => {
            let ps = pieces_from(code, 0, l);
            let out = out_spec(code, ps);
            assert(out + Seq::<char>::empty() =~= out);
            lemma_out(code, ps, Seq::<char>::empty());
            lemma_pieces_cover(code, 0, l);
            assert(code.subrange(0, code.len() as int) =~= code);
            assert(esc_spec(code) + Seq::<char>::empty() =~= esc_spec(code));
        },
        None => {
            assert(esc_spec(code) + Seq::<char>::empty() =~= esc_spec(code));
            lemma_untag_text(esc_spec(code), Seq::<char>::empty());
        },
    }
}

} // verus!
