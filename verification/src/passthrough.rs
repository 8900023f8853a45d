//! Markup that carries no marker comes out of the template filler as it went
//! in.
use vstd::prelude::*;

use crate::fill::{marker_of_spec, markers_from, markers_spec, prepend, walk_from, ErrSpec, Src, Value};
use crate::html::{attrs_begin, attrs_spec, comment_skip, decl_skip, extent_spec, is_comment, is_decl, lemma_attrs_begin, lemma_attrs_from, named_spec, tag_end_spec, tag_name_spec, AttrSpec, RAWTEXT};
use crate::text::{find_char_spec, lemma_find_char_bounds, lemma_find_pat_bounds};

verus! {

/// Whether no tag anywhere in `s` carries a marker.
pub open spec fn unmarked(s: Seq<char>) -> bool {
    forall|lo: int, hi: int| 0 <= lo <= hi <= s.len() ==> #[trigger] markers_spec(s, lo, hi).len() == 0
}

/// Whether `s` spells `data-` anywhere: every marker is an attribute whose
/// name begins with it.
pub open spec fn mentions_data(s: Seq<char>) -> bool {
    exists|j: int| 0 <= j && j + 5 <= s.len() && #[trigger] s.subrange(j, j + 5) == "data-"@
}

proof fn lemma_no_marker_from(s: Seq<char>, lo: int, attrs: Seq<AttrSpec>, k: int)
    requires
        !mentions_data(s),
        forall|q: int| 0 <= q < attrs.len() ==> 0 <= (#[trigger] attrs[q]).0 <= attrs[q].1 <= s.len(),
    ensures
        markers_from(s, lo, attrs, k).len() == 0,
    decreases attrs.len() - k,
{
    if 0 <= k < attrs.len() {
        let a = attrs[k];
        let name = s.subrange(a.0, a.1);
        reveal_strlit("data-");
        reveal_strlit("data-slot");
        reveal_strlit("data-html");
        reveal_strlit("data-each");
        reveal_strlit("data-include");
        reveal_strlit("data-when");
        reveal_strlit("data-attr-");
        if name.len() >= 5 && name.subrange(0, 5) == "data-"@ {
            assert(s.subrange(a.0, a.0 + 5) =~= name.subrange(0, 5));
            assert(false);
        }
        assert(name != "data-slot"@ && name != "data-html"@ && name != "data-each"@) by {
            if name == "data-slot"@ || name == "data-html"@ || name == "data-each"@ {
                assert(name.subrange(0, 5) =~= "data-"@);
            }
        }
        assert(name != "data-include"@ && name != "data-when"@) by {
            if name == "data-include"@ || name == "data-when"@ {
                assert(name.subrange(0, 5) =~= "data-"@);
            }
        }
        let pre = "data-attr-"@;
        if name.len() >= pre.len() && name.subrange(0, pre.len() as int) == pre {
            assert(name.subrange(0, 5) =~= "data-"@);
        }
        assert(marker_of_spec(s, lo, a) is None);
        lemma_no_marker_from(s, lo, attrs, k + 1);
    }
}

proof fn lemma_no_markers(s: Seq<char>, lo: int, hi: int)
    requires
        !mentions_data(s),
        0 <= lo <= hi <= s.len(),
    ensures
        markers_spec(s, lo, hi).len() == 0,
{
    if lo < hi {
        lemma_attrs_begin(s, lo, hi);
        lemma_attrs_from(s, attrs_begin(s, lo, hi), hi);
    }
    lemma_no_marker_from(s, lo, attrs_spec(s, lo, hi), 0);
}

/// One step of the walk over a tag that carries no marker.
#[verifier::spinoff_prover]
proof fn lemma_step_tag<'a, 'v>(
    src: Src<'a>,
    inc: Seq<(&'a str, &'a str)>,
    depth: int,
    i: int,
    end: int,
    sc: Seq<&Value<'v>>,
    at: int,
    next: int,
)
    requires
        0 <= i <= at < next <= end <= src.text@.len(),
        find_char_spec(src.text@, i, end, '<') == Some(at),
        !is_comment(src.text@, at, end),
        !is_decl(src.text@, at, end),
        tag_name_spec(src.text@, at, end) is Some,
        ({
            let s = src.text@;
            let (n0, n1, closing) = tag_name_spec(s, at, end)->Some_0;
            let te = tag_end_spec(s, at, end);
            let rawtext = !closing && named_spec(s.subrange(n0, n1), RAWTEXT@);
            &&& at < te <= end
            &&& markers_spec(s, at, te).len() == 0
            &&& next == match extent_spec(s, at) {
                Some((_, ce, _)) => if rawtext && te <= ce <= end { ce } else { te },
                None => te,
            }
        }),
        walk_from(src, inc, depth, next, end, sc) == Ok::<Seq<char>, ErrSpec>(src.text@.subrange(next, end)),
    ensures
        walk_from(src, inc, depth, i, end, sc) == Ok::<Seq<char>, ErrSpec>(src.text@.subrange(i, end)),
{
    let s = src.text@;
    assert(s.subrange(i, at) + s.subrange(at, next) + s.subrange(next, end) =~= s.subrange(i, end));
}

#[verifier::spinoff_prover]
#[verifier::rlimit(100)]
proof fn lemma_walk_unmarked<'a, 'v>(
    src: Src<'a>,
    inc: Seq<(&'a str, &'a str)>,
    depth: int,
    i: int,
    end: int,
    sc: Seq<&Value<'v>>,
)
    requires
        0 <= i <= end <= src.text@.len(),
        unmarked(src.text@),
    ensures
        walk_from(src, inc, depth, i, end, sc) == Ok::<Seq<char>, ErrSpec>(src.text@.subrange(i, end)),
    decreases end - i,
{
    let s = src.text@;
    lemma_find_char_bounds(s, i, end, '<');
    match find_char_spec(s, i, end, '<') {
        None => {},
        Some(at) => {
            let pre = s.subrange(i, at);
            if is_comment(s, at, end) {
                reveal_strlit("<!--");
                reveal_strlit("-->");
                lemma_find_pat_bounds(s, at + 4, end, "-->"@);
                let st = comment_skip(s, at, end);
                lemma_walk_unmarked(src, inc, depth, st, end, sc);
                assert(pre + s.subrange(at, st) + s.subrange(st, end) =~= s.subrange(i, end));
            } else if is_decl(s, at, end) {
                reveal_strlit("<!");
                reveal_strlit("<?");
                lemma_find_char_bounds(s, at, end, '>');
                let st = decl_skip(s, at, end);
                lemma_walk_unmarked(src, inc, depth, st, end, sc);
                assert(pre + s.subrange(at, st) + s.subrange(st, end) =~= s.subrange(i, end));
            } else {
                match tag_name_spec(s, at, end) {
                    None => {
                        lemma_walk_unmarked(src, inc, depth, at + 1, end, sc);
                        assert(pre + seq!['<'] + s.subrange(at + 1, end) =~= s.subrange(i, end));
                    },
                    Some((n0, n1, closing)) => {
                        crate::html::lemma_tag_end_from(s, at + 1, end, None);
                        let te = tag_end_spec(s, at, end);
                        assert(markers_spec(s, at, te).len() == 0);
                        let rawtext = !closing && named_spec(s.subrange(n0, n1), RAWTEXT@);
                        let next = match extent_spec(s, at) {
                            Some((_, ce, _)) => if rawtext && te <= ce <= end { ce } else { te },
                            None => te,
                        };
                        lemma_walk_unmarked(src, inc, depth, next, end, sc);
                        lemma_step_tag(src, inc, depth, i, end, sc, at, next);
                    },
                }
            }
        },
    }
}

/// Unmarked markup passes through byte for byte: a template none of whose
/// tags carries a marker renders as its own text, whatever the values.
pub proof fn lemma_unmarked_passes_through<'a, 'v>(
    src: Src<'a>,
    inc: Seq<(&'a str, &'a str)>,
    sc: Seq<&Value<'v>>,
)
    requires
        unmarked(src.text@),
    ensures
        walk_from(src, inc, 0, 0, src.text@.len() as int, sc) == Ok::<Seq<char>, ErrSpec>(src.text@),
{
    lemma_walk_unmarked(src, inc, 0, 0, src.text@.len() as int, sc);
    assert(src.text@.subrange(0, src.text@.len() as int) =~= src.text@);
}

/// Markup that never spells `data-` carries no marker, so it passes through
/// byte for byte, whatever the values.
pub proof fn lemma_plain_passes_through<'a, 'v>(
    src: Src<'a>,
    inc: Seq<(&'a str, &'a str)>,
    sc: Seq<&Value<'v>>,
)
    requires
        !mentions_data(src.text@),
    ensures
        walk_from(src, inc, 0, 0, src.text@.len() as int, sc) == Ok::<Seq<char>, ErrSpec>(src.text@),
{
    assert forall|lo: int, hi: int| 0 <= lo <= hi <= src.text@.len() implies #[trigger] markers_spec(
        src.text@,
        lo,
        hi,
    ).len() == 0 by {
        lemma_no_markers(src.text@, lo, hi);
    }
    lemma_unmarked_passes_through(src, inc, sc);
}

} // verus!
