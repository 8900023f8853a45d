//! Markup with nothing to make absolute comes out of `absolutize` as it went
//! in.
use vstd::prelude::*;

use crate::html::{
    abs_step, absolutize_from, attrs_begin, attrs_ordered, attrs_spec, comment_skip, decl_skip,
    inserts, is_comment, is_decl, lemma_attrs_begin, lemma_attrs_from, lemma_rawtext_end,
    lemma_tag_end_from, named_spec, rawtext_end_spec, rewrite_spec, splice_from, tag_end_spec,
    tag_name_spec, value_start, AttrSpec, RAWTEXT,
};
use crate::text::{find_char_spec, lemma_find_char_bounds, lemma_find_pat_bounds};

verus! {

/// The attributes of the tag that opens at `lo`, read through its `>`.
pub open spec fn tag_attrs(s: Seq<char>, lo: int) -> Seq<AttrSpec> {
    attrs_spec(s, lo, tag_end_spec(s, lo, s.len() as int))
}

/// Whether no tag in `s`, from any `<` through its `>`, has a URL attribute
/// (`href`, `src`, `poster`, `cite`, `data`) whose value is root-relative.
pub open spec fn nothing_to_absolutize(s: Seq<char>) -> bool {
    forall|lo: int, k: int|
        0 <= lo < s.len() && s[lo] == '<' && 0 <= k < tag_attrs(s, lo).len() ==> !inserts(
            s,
            #[trigger] tag_attrs(s, lo)[k],
        )
}

proof fn lemma_splice_untouched(
    s: Seq<char>,
    attrs: Seq<AttrSpec>,
    k: int,
    last: int,
    hi: int,
    base: Seq<char>,
)
    requires
        0 <= k,
        forall|j: int| k <= j < attrs.len() ==> !inserts(s, #[trigger] attrs[j]),
    ensures
        splice_from(s, attrs, k, last, hi, base) == s.subrange(last, hi),
    decreases attrs.len() - k,
{
    if k < attrs.len() {
        lemma_splice_untouched(s, attrs, k + 1, last, hi, base);
    }
}

/// With nothing to put in front, splicing leaves a tag as it is.
proof fn lemma_splice_empty(
    s: Seq<char>,
    attrs: Seq<AttrSpec>,
    from: int,
    k: int,
    last: int,
    hi: int,
)
    requires
        0 <= k,
        0 <= last <= hi <= s.len(),
        attrs_ordered(attrs, from, hi),
        k < attrs.len() ==> last <= attrs[k].0,
    ensures
        splice_from(s, attrs, k, last, hi, Seq::<char>::empty()) == s.subrange(last, hi),
    decreases attrs.len() - k,
{
    if k < attrs.len() {
        let a = attrs[k];
        if k + 1 < attrs.len() {
            assert(attrs[k].3 <= attrs[k + 1].0);
        }
        if inserts(s, a) {
            let v0 = value_start(a);
            lemma_splice_empty(s, attrs, from, k + 1, v0, hi);
            assert(s.subrange(last, v0) + Seq::<char>::empty() + s.subrange(v0, hi) =~= s.subrange(last, hi));
        } else {
            lemma_splice_empty(s, attrs, from, k + 1, last, hi);
        }
    }
}

proof fn lemma_from(s: Seq<char>, i: int, base: Seq<char>)
    requires
        0 <= i <= s.len(),
        nothing_to_absolutize(s) || base.len() == 0,
    ensures
        absolutize_from(s, i, base) == s.subrange(i, s.len() as int),
    decreases s.len() - i,
{
    let len = s.len() as int;
    lemma_find_char_bounds(s, i, len, '<');
    match find_char_spec(s, i, len, '<') {
        None => {},
        Some(lt) => {
            let pre = s.subrange(i, lt);
            let (emitted, next) = abs_step(s, lt, base);
            if is_comment(s, lt, len) {
                reveal_strlit("<!--");
                reveal_strlit("-->");
                lemma_find_pat_bounds(s, lt + 4, len, "-->"@);
                assert(lt < comment_skip(s, lt, len) <= len);
            } else if is_decl(s, lt, len) {
                reveal_strlit("<!");
                reveal_strlit("<?");
                lemma_find_char_bounds(s, lt, len, '>');
                assert(lt < decl_skip(s, lt, len) <= len);
            } else {
                match tag_name_spec(s, lt, len) {
                    None => {
                        assert(s.subrange(lt, lt + 1) =~= seq!['<']);
                    },
                    Some((n0, n1, closing)) => {
                        lemma_tag_end_from(s, lt + 1, len, None);
                        let end = tag_end_spec(s, lt, len);
                        let a = attrs_spec(s, lt, end);
                        if nothing_to_absolutize(s) {
                            assert forall|j: int| 0 <= j < a.len() implies !inserts(s, #[trigger] a[j]) by {
                                assert(!inserts(s, tag_attrs(s, lt)[j]));
                            }
                            lemma_splice_untouched(s, a, 0, lt, end, base);
                        } else {
                            assert(base =~= Seq::<char>::empty());
                            if lt < end {
                                lemma_attrs_begin(s, lt, end);
                                lemma_attrs_from(s, attrs_begin(s, lt, end), end);
                                lemma_splice_empty(s, a, attrs_begin(s, lt, end), 0, lt, end);
                            } else {
                                lemma_splice_empty(s, a, lt, 0, lt, end);
                            }
                        }
                        assert(rewrite_spec(s, lt, end, base) == s.subrange(lt, end));
                        if !closing && named_spec(s.subrange(n0, n1), RAWTEXT@) {
                            let stop = rawtext_end_spec(s, end, len, s.subrange(n0, n1));
                            lemma_rawtext_end(s, end, len, s.subrange(n0, n1));
                            assert(s.subrange(lt, end) + s.subrange(end, stop) =~= s.subrange(
                                lt,
                                stop,
                            ));
                        }
                    },
                }
            }
            assert(i < next <= len);
            assert(emitted == s.subrange(lt, next));
            lemma_from(s, next, base);
            assert(pre + s.subrange(lt, next) + s.subrange(next, len) =~= s.subrange(i, len));
        },
    }
}

/// Markup in which no URL attribute holds a root-relative URL comes out of
/// `absolutize` exactly as it went in, whatever the base.
pub proof fn lemma_nothing_to_absolutize(s: Seq<char>, base: Seq<char>)
    requires
        nothing_to_absolutize(s),
    ensures
        absolutize_from(s, 0, base) == s,
{
    lemma_from(s, 0, base);
    assert(s.subrange(0, s.len() as int) =~= s);
}

/// With an empty base, `absolutize` changes nothing: the only edit it makes is
/// putting the base in front of a root-relative URL.
pub proof fn lemma_empty_base(s: Seq<char>)
    ensures
        absolutize_from(s, 0, Seq::<char>::empty()) == s,
{
    lemma_from(s, 0, Seq::<char>::empty());
    assert(s.subrange(0, s.len() as int) =~= s);
}

} // verus!
