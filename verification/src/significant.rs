//! What minifying keeps of a stylesheet's tokens.
use vstd::prelude::*;

use crate::css::{
    dedup_keep, deduped, keep_from, minify_spec, normalized, pieces, semis_trimmed, toks_of,
    trim_keep, trimmed, ws_keep, ws_kept, Kind, Tok,
};

verus! {

/// A token that is neither whitespace, a comment nor a `;`.
pub open spec fn is_significant(t: Tok) -> bool {
    t.0 != Kind::Whitespace && t.0 != Kind::Comment && t.0 != Kind::Semicolon
}

pub open spec fn significant_pred() -> spec_fn(Tok) -> bool {
    |t: Tok| is_significant(t)
}

/// The tokens of `ts` that are neither whitespace, comments nor `;`, in order.
pub open spec fn significant(ts: Seq<Tok>) -> Seq<Tok> {
    ts.filter(significant_pred())
}

/// The tokens minifying writes out, in order, before each is written.
pub open spec fn kept(css: Seq<char>) -> Seq<Tok> {
    ws_kept(semis_trimmed(deduped(normalized(toks_of(css)))))
}

proof fn lemma_single(t: Tok)
    ensures
        significant(seq![t]) == if is_significant(t) { seq![t] } else { Seq::<Tok>::empty() },
{
    reveal_with_fuel(Seq::filter, 2);
    assert(seq![t].drop_last() =~= Seq::<Tok>::empty());
}

/// A filter that keeps at least every significant token keeps all of them.
proof fn lemma_keep(ts: Seq<Tok>, k: int, keep: spec_fn(int) -> bool)
    requires
        0 <= k <= ts.len(),
        forall|j: int| k <= j < ts.len() && is_significant(#[trigger] ts[j]) ==> keep(j),
    ensures
        significant(keep_from(ts, k, keep)) == significant(ts.subrange(k, ts.len() as int)),
    decreases ts.len() - k,
{
    let n = ts.len() as int;
    let p = significant_pred();
    if k < n {
        lemma_keep(ts, k + 1, keep);
        let head = if keep(k) { seq![ts[k]] } else { Seq::<Tok>::empty() };
        let rest = keep_from(ts, k + 1, keep);
        assert(keep_from(ts, k, keep) == head + rest);
        Seq::filter_distributes_over_add(head, rest, p);
        assert(ts.subrange(k, n) =~= seq![ts[k]] + ts.subrange(k + 1, n));
        Seq::filter_distributes_over_add(seq![ts[k]], ts.subrange(k + 1, n), p);
        lemma_single(ts[k]);
        assert(Seq::<Tok>::empty().filter(p) =~= Seq::<Tok>::empty());
        assert(Seq::<Tok>::empty() + significant(rest) =~= significant(rest));
    } else {
        assert(ts.subrange(k, n) =~= Seq::<Tok>::empty());
        assert(keep_from(ts, k, keep) == Seq::<Tok>::empty());
    }
}

/// Writing comments as whitespace changes no significant token.
proof fn lemma_normalized(ts: Seq<Tok>)
    ensures
        significant(normalized(ts)) == significant(ts),
    decreases ts.len(),
{
    let p = significant_pred();
    if ts.len() > 0 {
        let pre = ts.drop_last();
        let t = ts.last();
        let u = if t.0 == Kind::Comment { (Kind::Whitespace, " "@) } else { t };
        lemma_normalized(pre);
        assert(ts =~= pre + seq![t]);
        assert(normalized(ts) =~= normalized(pre) + seq![u]);
        Seq::filter_distributes_over_add(pre, seq![t], p);
        Seq::filter_distributes_over_add(normalized(pre), seq![u], p);
        lemma_single(t);
        lemma_single(u);
    } else {
        assert(normalized(ts) =~= ts);
    }
}

/// Minifying drops only whitespace, comments and semicolons: the tokens it
/// writes out, one after the other, are the stylesheet's tokens, in order,
/// once those three kinds are set aside on both sides.
pub proof fn lemma_minify_keeps_significant(css: Seq<char>)
    ensures
        minify_spec(css) == trimmed(pieces(kept(css))),
        significant(kept(css)) == significant(toks_of(css)),
{
    let t0 = toks_of(css);
    let t1 = normalized(t0);
    lemma_normalized(t0);
    let k1 = |k: int| dedup_keep(t1, k);
    let t2 = keep_from(t1, 0, k1);
    assert(deduped(t1) == t2);
    lemma_keep(t1, 0, k1);
    assert(t1.subrange(0, t1.len() as int) =~= t1);
    let k2 = |k: int| trim_keep(t2, k);
    let t3 = keep_from(t2, 0, k2);
    assert(semis_trimmed(t2) == t3);
    lemma_keep(t2, 0, k2);
    assert(t2.subrange(0, t2.len() as int) =~= t2);
    let k3 = |k: int| ws_keep(t3, k);
    let t4 = keep_from(t3, 0, k3);
    assert(ws_kept(t3) == t4);
    lemma_keep(t3, 0, k3);
    assert(t3.subrange(0, t3.len() as int) =~= t3);
}

} // verus!
