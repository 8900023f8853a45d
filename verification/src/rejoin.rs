//! A CDATA section, split where its text holds `]]>`, joins back into that
//! text.
use vstd::prelude::*;

use crate::text::at_pat;
use crate::xml::{cdata_spec, legal, replace_from};

verus! {

/// What the sections of `out` hold, joined: the opening `<![CDATA[` and the
/// closing `]]>` taken off, and each `]]><![CDATA[` that joins two sections
/// taken out, left to right.
pub open spec fn rejoined(out: Seq<char>) -> Seq<char> {
    replace_from(out.subrange(9, out.len() - 3), 0, "]]><![CDATA["@, seq![])
}

/// Matching looks only forward, so what comes before does not change it.
proof fn lemma_shift(a: Seq<char>, b: Seq<char>, j: int, pat: Seq<char>, rep: Seq<char>)
    requires
        0 <= j,
        pat.len() > 0,
    ensures
        replace_from(a + b, a.len() + j, pat, rep) == replace_from(b, j, pat, rep),
    decreases b.len() - j,
{
    let s = a + b;
    let i = a.len() + j;
    if j < b.len() {
        assert(s[i] == b[j]);
        if i + pat.len() <= s.len() {
            assert(s.subrange(i, i + pat.len()) =~= b.subrange(j, j + pat.len()));
        }
        assert(at_pat(s, i, s.len() as int, pat) == at_pat(b, j, b.len() as int, pat));
        if at_pat(b, j, b.len() as int, pat) {
            lemma_shift(a, b, j + pat.len(), pat, rep);
        } else {
            lemma_shift(a, b, j + 1, pat, rep);
        }
    }
}

/// After a `]` that starts no `]]>`, the split text does not go on with `]>`.
proof fn lemma_no_join_after(t: Seq<char>, i: int)
    requires
        0 <= i < t.len(),
        t[i] == ']',
        !at_pat(t, i, t.len() as int, "]]>"@),
    ensures
        ({
            let m = replace_from(t, i + 1, "]]>"@, "]]]]><![CDATA[>"@);
            !(m.len() >= 2 && m[0] == ']' && m[1] == '>')
        }),
{
    reveal_strlit("]]>");
    reveal_strlit("]]]]><![CDATA[>");
    let p = "]]>"@;
    let r = "]]]]><![CDATA[>"@;
    let n = t.len() as int;
    let m = replace_from(t, i + 1, p, r);
    if i + 1 < n {
        if at_pat(t, i + 1, n, p) {
            assert(m == r + replace_from(t, i + 4, p, r));
            assert(m[1] == r[1]);
        } else {
            let m2 = replace_from(t, i + 2, p, r);
            assert(m == seq![t[i + 1]] + m2);
            if t[i + 1] == ']' && i + 2 < n {
                if at_pat(t, i + 2, n, p) {
                    assert(m2 == r + replace_from(t, i + 5, p, r));
                    assert(m[1] == m2[0]);
                } else {
                    assert(m2 == seq![t[i + 2]] + replace_from(t, i + 3, p, r));
                    assert(m[1] == t[i + 2]);
                    if t[i + 2] == '>' {
                        assert(t.subrange(i, i + 3) =~= p);
                    }
                }
            }
        }
    }
}

/// Taking each joint out of the split text from `i` on gives back the text
/// from `i` on.
proof fn lemma_unsplit(t: Seq<char>, i: int)
    requires
        0 <= i <= t.len(),
    ensures
        replace_from(replace_from(t, i, "]]>"@, "]]]]><![CDATA[>"@), 0, "]]><![CDATA["@, seq![])
            == t.subrange(i, t.len() as int),
    decreases t.len() - i,
{
    reveal_strlit("]]>");
    reveal_strlit("]]]]><![CDATA[>");
    reveal_strlit("]]><![CDATA[");
    let p = "]]>"@;
    let r = "]]]]><![CDATA[>"@;
    let sep = "]]><![CDATA["@;
    let e = Seq::<char>::empty();
    let n = t.len() as int;
    assert(p.len() == 3 && r.len() == 15 && sep.len() == 12);
    if i >= n {
        assert(t.subrange(i, n) =~= e);
    } else if at_pat(t, i, n, p) {
        let m1 = replace_from(t, i + 3, p, r);
        lemma_unsplit(t, i + 3);
        let x = r + m1;
        assert(replace_from(t, i, p, r) == x);
        assert(x[2] == ']' && x[3] == ']');
        assert(!at_pat(x, 0, x.len() as int, sep)) by {
            if at_pat(x, 0, x.len() as int, sep) {
                assert(x.subrange(0, 12)[2] == sep[2]);
            }
        }
        assert(!at_pat(x, 1, x.len() as int, sep)) by {
            if at_pat(x, 1, x.len() as int, sep) {
                assert(x.subrange(1, 13)[2] == sep[2]);
            }
        }
        assert(x.subrange(2, 14) =~= sep);
        assert(at_pat(x, 2, x.len() as int, sep));
        assert(x[14] == '>');
        assert(!at_pat(x, 14, x.len() as int, sep)) by {
            if at_pat(x, 14, x.len() as int, sep) {
                assert(x.subrange(14, 26)[0] == sep[0]);
            }
        }
        lemma_shift(r, m1, 0, sep, e);
        assert(replace_from(x, 15, sep, e) == t.subrange(i + 3, n));
        assert(replace_from(x, 14, sep, e) == seq![x[14]] + replace_from(x, 15, sep, e));
        assert(replace_from(x, 2, sep, e) == e + replace_from(x, 14, sep, e));
        assert(replace_from(x, 1, sep, e) == seq![x[1]] + replace_from(x, 2, sep, e));
        assert(replace_from(x, 0, sep, e) == seq![x[0]] + replace_from(x, 1, sep, e));
        assert(replace_from(x, 0, sep, e) == seq![x[0]] + (seq![x[1]] + (e + (seq![x[14]]
            + replace_from(x, 15, sep, e)))));
        assert(t.subrange(i, i + 3) =~= p);
        assert(seq![x[0]] + (seq![x[1]] + (e + (seq![x[14]] + t.subrange(i + 3, n))))
            =~= t.subrange(i, n));
    } else {
        let c = t[i];
        let m1 = replace_from(t, i + 1, p, r);
        lemma_unsplit(t, i + 1);
        let x = seq![c] + m1;
        assert(replace_from(t, i, p, r) == x);
        if c == ']' {
            lemma_no_join_after(t, i);
        }
        if at_pat(x, 0, x.len() as int, sep) {
            assert(x.subrange(0, 12)[0] == sep[0]);
            assert(x.subrange(0, 12)[1] == sep[1]);
            assert(x.subrange(0, 12)[2] == sep[2]);
            assert(m1[0] == x[1] && m1[1] == x[2]);
        }
        lemma_shift(seq![c], m1, 0, sep, e);
        assert(seq![c] + t.subrange(i + 1, n) =~= t.subrange(i, n));
    }
}

/// A CDATA section reads back as the text it was given: take off the opening
/// and closing delimiters, take out each `]]><![CDATA[` that joins two
/// sections, and what is left is the legal characters of the text.
pub proof fn lemma_cdata_rejoins(s: Seq<char>)
    ensures
        rejoined(cdata_spec(s)) == legal(s),
{
    reveal_strlit("<![CDATA[");
    reveal_strlit("]]>");
    let t = legal(s);
    let m = replace_from(t, 0, "]]>"@, "]]]]><![CDATA[>"@);
    let out = cdata_spec(s);
    assert(out.subrange(9, out.len() - 3) =~= m);
    lemma_unsplit(t, 0);
    assert(t.subrange(0, t.len() as int) =~= t);
}

} // verus!
