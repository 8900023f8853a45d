//! What `check` reads out of a built page: link targets and class names.
use vstd::prelude::*;

use crate::css::{tokenize, tokens_from, token_text, kind_of, tokenized, Kind, Token};
use crate::dev::{resolve, resolve_spec, Resolved, ResolvedSpec};
use crate::text::{
    chars_of, find, find_char, find_char_spec, find_pat, is_whitespace, lemma_find_char_bounds,
    lemma_find_pat_bounds, push_range, push_str, range_string, starts_at, str_eq, trim_start,
    trim_start_pos, whitespace,
};

verus! {

/// For an empty opening, which occurs at every position from `i` through the
/// end: the text from there up to the next `"`, where one follows.
pub open spec fn every_from(s: Seq<char>, i: int) -> Seq<Seq<char>>
    decreases s.len() + 1 - i,
{
    if !(0 <= i <= s.len()) {
        seq![]
    } else {
        let here = match find_char_spec(s, i, s.len() as int, '"') {
            Some(e) => seq![s.subrange(i, e)],
            None => seq![],
        };
        here + every_from(s, i + 1)
    }
}

/// Every value of the attribute whose opening is `pat` (`href="`) in `s[i..]`:
/// the text up to the next `"`. Crude on purpose: it reads the output of a
/// build, not arbitrary markup.
pub open spec fn attrs_from(s: Seq<char>, i: int, pat: Seq<char>) -> Seq<Seq<char>>
    decreases s.len() - i,
{
    if !(0 <= i <= s.len()) {
        seq![]
    } else if pat.len() == 0 {
        every_from(s, i)
    } else {
        match find_pat(s, i, s.len() as int, pat) {
            None => seq![],
            Some(k) => {
                let v = k + pat.len();
                let here = match find_char_spec(s, v, s.len() as int, '"') {
                    Some(e) => seq![s.subrange(v, e)],
                    None => seq![],
                };
                if v <= i || v > s.len() { seq![] } else { here + attrs_from(s, v, pat) }
            },
        }
    }
}

pub open spec fn strings_view(v: Seq<String>) -> Seq<Seq<char>> {
    v.map_values(|s: String| s@)
}

fn every_value(s: &[char]) -> (r: Vec<String>)
    ensures
        strings_view(r@) == every_from(s@, 0),
{
    let len = s.len();
    let mut out: Vec<String> = Vec::new();
    let mut i: usize = 0;
    assert(strings_view(out@) =~= Seq::<Seq<char>>::empty());
    while i <= len
        invariant
            len == s@.len(),
            i <= len + 1,
            every_from(s@, 0) == strings_view(out@) + every_from(s@, i as int),
        decreases len + 1 - i,
    {
        proof { lemma_find_char_bounds(s@, i as int, len as int, '"'); }
        let ghost before = strings_view(out@);
        match find_char(s, i, len, '"') {
            Some(e) => {
                out.push(range_string(s, i, e));
                assert(strings_view(out@) =~= before.push(s@.subrange(i as int, e as int)));
                assert(before + (seq![s@.subrange(i as int, e as int)] + every_from(s@, i + 1)) =~= strings_view(out@) + every_from(s@, i + 1));
            },
            None => {
                assert(before + (Seq::<Seq<char>>::empty() + every_from(s@, i + 1)) =~= strings_view(out@) + every_from(s@, i + 1));
            },
        }
        if i == len {
            assert(every_from(s@, i + 1) == Seq::<Seq<char>>::empty());
            assert(strings_view(out@) + Seq::<Seq<char>>::empty() =~= strings_view(out@));
            return out;
        }
        i += 1;
    }
    out
}

/// Every value of `attr` in `html`.
pub fn attrs(html: &str, attr: &str) -> (r: Vec<String>)
    ensures
        strings_view(r@) == attrs_from(html@, 0, attr@),
{
    let s = chars_of(html);
    let len = s.len();
    let n = attr.unicode_len();
    if n == 0 {
        return every_value(&s);
    }
    let mut out: Vec<String> = Vec::new();
    let mut i: usize = 0;
    assert(strings_view(out@) =~= Seq::<Seq<char>>::empty());
    loop
        invariant
            i <= len == s@.len(),
            s@ == html@,
            n == attr@.len() > 0,
            attrs_from(html@, 0, attr@) == strings_view(out@) + attrs_from(html@, i as int, attr@),
        decreases len - i,
    {
        proof { lemma_find_pat_bounds(s@, i as int, len as int, attr@); }
        let k = match find(&s, i, len, attr) {
            None => {
                assert(strings_view(out@) + Seq::<Seq<char>>::empty() =~= strings_view(out@));
                return out;
            },
            Some(k) => k,
        };
        let v = k + n;
        proof { lemma_find_char_bounds(s@, v as int, len as int, '"'); }
        let ghost before = strings_view(out@);
        match find_char(&s, v, len, '"') {
            Some(e) => {
                let value = range_string(&s, v, e);
                out.push(value);
                assert(strings_view(out@) =~= before.push(s@.subrange(v as int, e as int)));
                assert(before + (seq![s@.subrange(v as int, e as int)] + attrs_from(html@, v as int, attr@)) =~= strings_view(out@) + attrs_from(html@, v as int, attr@));
            },
            None => {
                assert(before + (Seq::<Seq<char>>::empty() + attrs_from(html@, v as int, attr@)) =~= strings_view(out@) + attrs_from(html@, v as int, attr@));
            },
        }
        i = v;
    }
}

/// `s[i..]` without the highlighted code blocks, each from its
/// `<pre class="hl">` to its `</pre>`.
pub open spec fn outside_from(s: Seq<char>, i: int) -> Seq<char>
    decreases s.len() - i,
{
    if !(0 <= i <= s.len()) {
        seq![]
    } else {
        match find_pat(s, i, s.len() as int, "<pre class=\"hl\">"@) {
            None => s.subrange(i, s.len() as int),
            Some(start) => s.subrange(i, start) + match find_pat(s, start, s.len() as int, "</pre>"@) {
                Some(end) => if end + 6 <= i || end + 6 > s.len() { seq![] } else { outside_from(s, end + 6) },
                None => seq![],
            },
        }
    }
}

/// The page without its highlighted code, whose classes are the highlighter's.
pub fn outside_code(html: &str) -> (r: String)
    ensures
        r@ == outside_from(html@, 0),
{
    let s = chars_of(html);
    let len = s.len();
    let mut out = String::new();
    let mut i: usize = 0;
    proof {
        reveal_strlit("<pre class=\"hl\">");
        reveal_strlit("</pre>");
    }
    loop
        invariant
            i <= len == s@.len(),
            s@ == html@,
            outside_from(html@, 0) == out@ + outside_from(html@, i as int),
        decreases len - i,
    {
        proof {
            reveal_strlit("<pre class=\"hl\">");
            reveal_strlit("</pre>");
            lemma_find_pat_bounds(s@, i as int, len as int, "<pre class=\"hl\">"@);
        }
        let start = match find(&s, i, len, "<pre class=\"hl\">") {
            None => {
                push_range(&mut out, &s, i, len);
                return out;
            },
            Some(k) => k,
        };
        let ghost before = out@;
        push_range(&mut out, &s, i, start);
        proof { lemma_find_pat_bounds(s@, start as int, len as int, "</pre>"@); }
        match find(&s, start, len, "</pre>") {
            Some(end) => {
                assert(before + outside_from(html@, i as int) =~= out@ + outside_from(html@, end + 6));
                i = end + 6;
            },
            None => {
                assert(before + outside_from(html@, i as int) =~= out@);
                return out;
            },
        }
    }
}

// -- Classes the stylesheets define -------------------------------------------

/// The classes among the first `n` tokens (as spans of `s`): every identifier
/// right after a `.`.
pub open spec fn classes_in(s: Seq<char>, sp: Seq<(Kind, int, int)>, n: int) -> Seq<Seq<char>>
    decreases n,
{
    if n < 2 || n > sp.len() {
        seq![]
    } else {
        classes_in(s, sp, n - 1) + if sp[n - 2].0 == Kind::Delim('.') && sp[n - 1].0 == Kind::Ident {
            seq![s.subrange(sp[n - 1].1, sp[n - 1].2)]
        } else {
            seq![]
        }
    }
}

pub open spec fn classes_of(s: Seq<char>) -> Seq<Seq<char>> {
    classes_in(s, tokens_from(s, 0), tokens_from(s, 0).len() as int)
}

/// The classes every stylesheet defines, stylesheet after stylesheet.
pub open spec fn all_classes(sources: Seq<Seq<char>>) -> Seq<Seq<char>>
    decreases sources.len(),
{
    if sources.len() == 0 {
        seq![]
    } else {
        all_classes(sources.drop_last()) + classes_of(sources.last())
    }
}

fn classes(src: &str, out: &mut Vec<String>)
    ensures
        strings_view(final(out)@) == strings_view(old(out)@) + classes_of(src@),
{
    let toks = tokenize(src);
    let ghost sp = tokens_from(src@, 0);
    let ghost start = strings_view(out@);
    let mut k: usize = 1;
    proof { assert(start + classes_in(src@, sp, 1) =~= start); }
    if toks.len() == 0 {
        return;
    }
    while k < toks.len()
        invariant
            1 <= k <= toks@.len(),
            tokenized(src@, toks@),
            sp == tokens_from(src@, 0),
            strings_view(out@) == start + classes_in(src@, sp, k as int),
        decreases toks@.len() - k,
    {
        let ghost before = strings_view(out@);
        proof {
            assert(kind_of(toks@[k - 1]) == sp[k - 1].0);
            assert(kind_of(toks@[k as int]) == sp[k as int].0);
            assert(token_text(toks@[k as int]) == src@.subrange(sp[k as int].1, sp[k as int].2));
        }
        match (toks[k - 1], toks[k]) {
            (Token::Delim('.'), Token::Ident(name)) => {
                out.push(name.to_owned());
                proof { assert(strings_view(out@) =~= before.push(name@)); }
            },
            _ => {},
        }
        proof {
            assert(strings_view(out@) =~= start + classes_in(src@, sp, k + 1));
        }
        k += 1;
    }
}

/// The class names the stylesheets define, each stylesheet in turn.
pub fn defined_classes(sources: &[String]) -> (r: Vec<String>)
    ensures
        strings_view(r@) == all_classes(strings_view(sources@)),
{
    let ghost sv = strings_view(sources@);
    let mut out: Vec<String> = Vec::new();
    let mut k: usize = 0;
    proof { assert(strings_view(out@) =~= all_classes(sv.take(0))); }
    while k < sources.len()
        invariant
            k <= sources@.len(),
            sv == strings_view(sources@),
            strings_view(out@) == all_classes(sv.take(k as int)),
        decreases sources@.len() - k,
    {
        classes(sources[k].as_str(), &mut out);
        proof { assert(sv.take(k + 1).drop_last() =~= sv.take(k as int)); }
        k += 1;
    }
    proof { assert(sv.take(sources@.len() as int) =~= sv); }
    out
}

// -- Problems -----------------------------------------------------------------

/// The end of the word that starts at `j`.
pub open spec fn word_end(s: Seq<char>, j: int) -> int
    decreases s.len() - j,
{
    if 0 <= j < s.len() && !is_whitespace(s[j]) {
        word_end(s, j + 1)
    } else {
        j
    }
}

/// The words of `s[i..]`, split on whitespace.
pub open spec fn words_from(s: Seq<char>, i: int) -> Seq<Seq<char>>
    decreases s.len() + 1 - i,
{
    if !(0 <= i < s.len()) {
        seq![]
    } else {
        let a = trim_start_pos(s, i, s.len() as int);
        let b = word_end(s, a);
        if !(i <= a < b <= s.len()) {
            seq![]
        } else {
            seq![s.subrange(a, b)] + words_from(s, b)
        }
    }
}

/// Whether `href` points inside the site: it starts with one `/`, not two.
pub open spec fn internal(href: Seq<char>) -> bool {
    href.len() > 0 && href[0] == '/' && !(href.len() > 1 && href[1] == '/')
}

/// The complaints about the links of a page.
pub open spec fn link_problems(page: Seq<char>, hrefs: Seq<Seq<char>>, files: Seq<String>, dirs: Seq<String>) -> Seq<Seq<char>>
    decreases hrefs.len(),
{
    if hrefs.len() == 0 {
        seq![]
    } else {
        let h = hrefs.last();
        link_problems(page, hrefs.drop_last(), files, dirs) + if internal(h) && resolve_spec(h, files, dirs) is NotFound {
            seq![page + " links to "@ + h + ", which was never written"@]
        } else {
            seq![]
        }
    }
}

/// The complaints about the words of one class attribute.
pub open spec fn word_problems(page: Seq<char>, words: Seq<Seq<char>>, defined: Seq<Seq<char>>) -> Seq<Seq<char>>
    decreases words.len(),
{
    if words.len() == 0 {
        seq![]
    } else {
        let w = words.last();
        word_problems(page, words.drop_last(), defined) + if !defined.contains(w) {
            seq![page + " uses `."@ + w + "`, which no stylesheet defines"@]
        } else {
            seq![]
        }
    }
}

/// The complaints about the class attributes of a page.
pub open spec fn class_problems(page: Seq<char>, values: Seq<Seq<char>>, defined: Seq<Seq<char>>) -> Seq<Seq<char>>
    decreases values.len(),
{
    if values.len() == 0 {
        seq![]
    } else {
        class_problems(page, values.drop_last(), defined) + word_problems(page, words_from(values.last(), 0), defined)
    }
}

/// Everything wrong with one page: links to nothing the build wrote, then
/// classes no stylesheet defines outside highlighted code.
pub open spec fn page_problems(page: Seq<char>, body: Seq<char>, files: Seq<String>, dirs: Seq<String>, defined: Seq<Seq<char>>) -> Seq<Seq<char>> {
    link_problems(page, attrs_from(body, 0, "href=\""@), files, dirs) + class_problems(
        page,
        attrs_from(outside_from(body, 0), 0, "class=\""@),
        defined,
    )
}

pub open spec fn problems_spec(pages: Seq<(String, String)>, files: Seq<String>, dirs: Seq<String>, defined: Seq<Seq<char>>) -> Seq<Seq<char>>
    decreases pages.len(),
{
    if pages.len() == 0 {
        seq![]
    } else {
        problems_spec(pages.drop_last(), files, dirs, defined) + page_problems(
            pages.last().0@,
            pages.last().1@,
            files,
            dirs,
            defined,
        )
    }
}

proof fn lemma_trim_start_stops(s: Seq<char>, from: int, to: int)
    requires
        0 <= from <= to <= s.len(),
    ensures
        from <= trim_start_pos(s, from, to) <= to,
        trim_start_pos(s, from, to) < to ==> !is_whitespace(s[trim_start_pos(s, from, to)]),
    decreases to - from,
{
    if from < to && is_whitespace(s[from]) {
        lemma_trim_start_stops(s, from + 1, to);
    }
}

fn push_words(page: &str, value: &str, defined: &[String], out: &mut Vec<String>)
    ensures
        strings_view(final(out)@) == strings_view(old(out)@) + word_problems(page@, words_from(value@, 0), strings_view(defined@)),
{
    let s = chars_of(value);
    let len = s.len();
    let ghost dv = strings_view(defined@);
    let ghost start = strings_view(out@);
    let ghost mut done: Seq<Seq<char>> = seq![];
    let mut i: usize = 0;
    proof { assert(start + word_problems(page@, done, dv) =~= start); }
    while i < len
        invariant
            i <= len == s@.len(),
            s@ == value@,
            dv == strings_view(defined@),
            words_from(value@, 0) == done + words_from(value@, i as int),
            strings_view(out@) == start + word_problems(page@, done, dv),
        ensures
            words_from(value@, i as int) == Seq::<Seq<char>>::empty(),
        decreases len - i,
    {
        let a = trim_start(&s, i, len);
        proof { lemma_trim_start_stops(s@, i as int, len as int); }
        if a >= len {
            break;
        }
        let mut b = a;
        while b < len && !whitespace(s[b])
            invariant
                a <= b <= len == s@.len(),
                word_end(s@, a as int) == word_end(s@, b as int),
            decreases len - b,
        {
            b += 1;
        }
        let w = range_string(&s, a, b);
        let mut known = false;
        let mut k: usize = 0;
        while k < defined.len()
            invariant
                k <= defined@.len(),
                dv == strings_view(defined@),
                known == exists|j: int| 0 <= j < k && dv[j] == w@,
            decreases defined@.len() - k,
        {
            proof { assert(dv[k as int] == defined@[k as int]@); }
            if str_eq(defined[k].as_str(), w.as_str()) {
                known = true;
            }
            k += 1;
        }
        let ghost before = strings_view(out@);
        if !known {
            let mut m = String::new();
            push_str(&mut m, page);
            push_str(&mut m, " uses `.");
            push_str(&mut m, w.as_str());
            push_str(&mut m, "`, which no stylesheet defines");
            let ghost mv = m@;
            out.push(m);
            proof { assert(strings_view(out@) =~= before.push(mv)); }
        }
        proof {
            if dv.contains(w@) {
                let j = choose|j: int| 0 <= j < dv.len() && dv[j] == w@;
                assert(dv[j] == w@);
            }
            let nd = done.push(w@);
            assert(nd.drop_last() =~= done);
            assert(words_from(value@, i as int) == seq![w@] + words_from(value@, b as int));
            assert(done + words_from(value@, i as int) =~= nd + words_from(value@, b as int));
            assert(strings_view(out@) =~= start + word_problems(page@, nd, dv));
            done = nd;
        }
        i = b;
    }
    proof { assert(done + Seq::<Seq<char>>::empty() =~= done); }
}

/// Everything wrong with the pages a build wrote, given as `(path, body)`,
/// next to the files and directories under the output directory and the class
/// names the stylesheets define; or an empty list.
pub fn problems(pages: &[(String, String)], files: &[String], dirs: &[String], defined: &[String]) -> (r: Vec<String>)
    ensures
        strings_view(r@) == problems_spec(pages@, files@, dirs@, strings_view(defined@)),
{
    let ghost dv = strings_view(defined@);
    let mut out: Vec<String> = Vec::new();
    let mut p: usize = 0;
    proof { assert(strings_view(out@) =~= problems_spec(pages@.take(0), files@, dirs@, dv)); }
    while p < pages.len()
        invariant
            p <= pages@.len(),
            dv == strings_view(defined@),
            strings_view(out@) == problems_spec(pages@.take(p as int), files@, dirs@, dv),
        decreases pages@.len() - p,
    {
        proof {
            reveal_strlit("href=\"");
            reveal_strlit("class=\"");
        }
        let name = pages[p].0.as_str();
        let body = pages[p].1.as_str();
        let ghost start = strings_view(out@);
        let hrefs = attrs(body, "href=\"");
        let mut k: usize = 0;
        let ghost hv = strings_view(hrefs@);
        proof { assert(start + link_problems(name@, hv.take(0), files@, dirs@) =~= start); }
        while k < hrefs.len()
            invariant
                k <= hrefs@.len(),
                hv == strings_view(hrefs@),
                strings_view(out@) == start + link_problems(name@, hv.take(k as int), files@, dirs@),
            decreases hrefs@.len() - k,
        {
            let h = hrefs[k].as_str();
            let ghost before = strings_view(out@);
            let hc = chars_of(h);
            let inside = hc.len() > 0 && hc[0] == '/' && !(hc.len() > 1 && hc[1] == '/');
            proof { assert(inside == internal(h@)); }
            if inside {
                let res = resolve(h, files, dirs);
                proof { assert((res is NotFound) == (resolve_spec(h@, files@, dirs@) is NotFound)); }
                match res {
                    Resolved::NotFound => {
                        let mut m = String::new();
                        push_str(&mut m, name);
                        push_str(&mut m, " links to ");
                        push_str(&mut m, h);
                        push_str(&mut m, ", which was never written");
                        let ghost mv = m@;
                        out.push(m);
                        proof { assert(strings_view(out@) =~= before.push(mv)); }
                    },
                    _ => {},
                }
            }
            proof {
                assert(hv.take(k + 1).drop_last() =~= hv.take(k as int));
                assert(hv.take(k + 1).last() == h@);
                assert(strings_view(out@) =~= start + link_problems(name@, hv.take(k + 1), files@, dirs@));
            }
            k += 1;
        }
        proof { assert(hv.take(hrefs@.len() as int) =~= hv); }
        let ghost mid = strings_view(out@);
        let outside = outside_code(body);
        let values = attrs(outside.as_str(), "class=\"");
        let ghost vv = strings_view(values@);
        let mut k: usize = 0;
        proof { assert(mid + class_problems(name@, vv.take(0), dv) =~= mid); }
        while k < values.len()
            invariant
                k <= values@.len(),
                vv == strings_view(values@),
                dv == strings_view(defined@),
                strings_view(out@) == mid + class_problems(name@, vv.take(k as int), dv),
            decreases values@.len() - k,
        {
            push_words(name, values[k].as_str(), defined, &mut out);
            proof {
                assert(vv.take(k + 1).drop_last() =~= vv.take(k as int));
                assert(vv.take(k + 1).last() == values@[k as int]@);
            }
            k += 1;
        }
        proof {
            reveal_strlit("href=\"");
            reveal_strlit("class=\"");
            assert(vv.take(values@.len() as int) =~= vv);
            assert(pages@.take(p + 1).drop_last() =~= pages@.take(p as int));
            assert(pages@.take(p + 1).last() == pages@[p as int]);
        }
        p += 1;
    }
    proof { assert(pages@.take(pages@.len() as int) =~= pages@); }
    out
}

// -- Laws ---------------------------------------------------------------------

/// Checking two lists of pages one after the other finds the problems of the
/// first, then those of the second: adding a page never takes away a
/// complaint about another, and complaints come in page order.
pub proof fn lemma_problems_concat(
    a: Seq<(String, String)>,
    b: Seq<(String, String)>,
    files: Seq<String>,
    dirs: Seq<String>,
    defined: Seq<Seq<char>>,
)
    ensures
        problems_spec(a + b, files, dirs, defined) == problems_spec(a, files, dirs, defined)
            + problems_spec(b, files, dirs, defined),
    decreases b.len(),
{
    if b.len() == 0 {
        assert(a + b =~= a);
        assert(problems_spec(a, files, dirs, defined) + Seq::<Seq<char>>::empty() =~= problems_spec(
            a,
            files,
            dirs,
            defined,
        ));
    } else {
        lemma_problems_concat(a, b.drop_last(), files, dirs, defined);
        assert((a + b).drop_last() =~= a + b.drop_last());
        assert((a + b).last() == b.last());
    }
}

proof fn lemma_link_reported(page: Seq<char>, hrefs: Seq<Seq<char>>, files: Seq<String>, dirs: Seq<String>, j: int)
    requires
        0 <= j < hrefs.len(),
        internal(hrefs[j]),
        resolve_spec(hrefs[j], files, dirs) is NotFound,
    ensures
        link_problems(page, hrefs, files, dirs).contains(page + " links to "@ + hrefs[j] + ", which was never written"@),
    decreases hrefs.len(),
{
    let msg = page + " links to "@ + hrefs[j] + ", which was never written"@;
    let rest = link_problems(page, hrefs.drop_last(), files, dirs);
    if j == hrefs.len() - 1 {
        let all = link_problems(page, hrefs, files, dirs);
        assert(all == rest + seq![msg]);
        assert(all[rest.len() as int] == msg);
    } else {
        lemma_link_reported(page, hrefs.drop_last(), files, dirs, j);
        assert(hrefs.drop_last()[j] == hrefs[j]);
        let k = choose|k: int| 0 <= k < rest.len() && rest[k] == msg;
        let all = link_problems(page, hrefs, files, dirs);
        assert(all[k] == msg);
    }
}

/// Every page's links are checked: for any page in the list and any link on
/// it that stays inside the site and names nothing the build wrote, the
/// result holds `<page> links to <href>, which was never written`.
pub proof fn lemma_dangling_link_reported(
    pages: Seq<(String, String)>,
    files: Seq<String>,
    dirs: Seq<String>,
    defined: Seq<Seq<char>>,
    p: int,
    j: int,
)
    requires
        0 <= p < pages.len(),
        0 <= j < attrs_from(pages[p].1@, 0, "href=\""@).len(),
        internal(attrs_from(pages[p].1@, 0, "href=\""@)[j]),
        resolve_spec(attrs_from(pages[p].1@, 0, "href=\""@)[j], files, dirs) is NotFound,
    ensures
        problems_spec(pages, files, dirs, defined).contains(
            pages[p].0@ + " links to "@ + attrs_from(pages[p].1@, 0, "href=\""@)[j] + ", which was never written"@,
        ),
{
    let hrefs = attrs_from(pages[p].1@, 0, "href=\""@);
    let page = pages[p].0@;
    let msg = page + " links to "@ + hrefs[j] + ", which was never written"@;
    lemma_link_reported(page, hrefs, files, dirs, j);
    let lp = link_problems(page, hrefs, files, dirs);
    let k = choose|k: int| 0 <= k < lp.len() && lp[k] == msg;
    let mine = page_problems(page, pages[p].1@, files, dirs, defined);
    assert(mine[k] == msg);
    let before = pages.subrange(0, p);
    let one = seq![pages[p]];
    let after = pages.subrange(p + 1, pages.len() as int);
    assert(pages =~= before + one + after);
    lemma_problems_concat(before + one, after, files, dirs, defined);
    lemma_problems_concat(before, one, files, dirs, defined);
    assert(one.drop_last() =~= Seq::<(String, String)>::empty());
    assert(problems_spec(one.drop_last(), files, dirs, defined) =~= Seq::<Seq<char>>::empty());
    assert(one.last() == pages[p]);
    assert(problems_spec(one, files, dirs, defined) =~= mine);
    let all = problems_spec(pages, files, dirs, defined);
    let pre = problems_spec(before, files, dirs, defined);
    assert(all == pre + mine + problems_spec(after, files, dirs, defined));
    assert(all[pre.len() + k] == msg);
}

proof fn lemma_word_reported(page: Seq<char>, words: Seq<Seq<char>>, defined: Seq<Seq<char>>, w: int)
    requires
        0 <= w < words.len(),
        !defined.contains(words[w]),
    ensures
        word_problems(page, words, defined).contains(page + " uses `."@ + words[w] + "`, which no stylesheet defines"@),
    decreases words.len(),
{
    let msg = page + " uses `."@ + words[w] + "`, which no stylesheet defines"@;
    let rest = word_problems(page, words.drop_last(), defined);
    let all = word_problems(page, words, defined);
    if w == words.len() - 1 {
        assert(all == rest + seq![msg]);
        assert(all[rest.len() as int] == msg);
    } else {
        lemma_word_reported(page, words.drop_last(), defined, w);
        assert(words.drop_last()[w] == words[w]);
        let k = choose|k: int| 0 <= k < rest.len() && rest[k] == msg;
        assert(all[k] == msg);
    }
}

proof fn lemma_class_reported(page: Seq<char>, values: Seq<Seq<char>>, defined: Seq<Seq<char>>, j: int, w: int)
    requires
        0 <= j < values.len(),
        0 <= w < words_from(values[j], 0).len(),
        !defined.contains(words_from(values[j], 0)[w]),
    ensures
        class_problems(page, values, defined).contains(
            page + " uses `."@ + words_from(values[j], 0)[w] + "`, which no stylesheet defines"@,
        ),
    decreases values.len(),
{
    let msg = page + " uses `."@ + words_from(values[j], 0)[w] + "`, which no stylesheet defines"@;
    let rest = class_problems(page, values.drop_last(), defined);
    let all = class_problems(page, values, defined);
    if j == values.len() - 1 {
        lemma_word_reported(page, words_from(values[j], 0), defined, w);
        let mine = word_problems(page, words_from(values.last(), 0), defined);
        let k = choose|k: int| 0 <= k < mine.len() && mine[k] == msg;
        assert(all == rest + mine);
        assert(all[rest.len() + k] == msg);
    } else {
        lemma_class_reported(page, values.drop_last(), defined, j, w);
        assert(values.drop_last()[j] == values[j]);
        let k = choose|k: int| 0 <= k < rest.len() && rest[k] == msg;
        assert(all[k] == msg);
    }
}

/// Every page's classes are checked: for any page in the list and any word of
/// a `class` attribute on it, outside highlighted code, that no stylesheet
/// defines, the result holds `<page> uses `.<word>`, which no stylesheet
/// defines`.
pub proof fn lemma_undefined_class_reported(
    pages: Seq<(String, String)>,
    files: Seq<String>,
    dirs: Seq<String>,
    defined: Seq<Seq<char>>,
    p: int,
    j: int,
    w: int,
)
    requires
        0 <= p < pages.len(),
        0 <= j < attrs_from(outside_from(pages[p].1@, 0), 0, "class=\""@).len(),
        0 <= w < words_from(attrs_from(outside_from(pages[p].1@, 0), 0, "class=\""@)[j], 0).len(),
        !defined.contains(words_from(attrs_from(outside_from(pages[p].1@, 0), 0, "class=\""@)[j], 0)[w]),
    ensures
        problems_spec(pages, files, dirs, defined).contains(
            pages[p].0@ + " uses `."@ + words_from(attrs_from(outside_from(pages[p].1@, 0), 0, "class=\""@)[j], 0)[w]
                + "`, which no stylesheet defines"@,
        ),
{
    let values = attrs_from(outside_from(pages[p].1@, 0), 0, "class=\""@);
    let page = pages[p].0@;
    let msg = page + " uses `."@ + words_from(values[j], 0)[w] + "`, which no stylesheet defines"@;
    lemma_class_reported(page, values, defined, j, w);
    let cp = class_problems(page, values, defined);
    let k = choose|k: int| 0 <= k < cp.len() && cp[k] == msg;
    let lp = link_problems(page, attrs_from(pages[p].1@, 0, "href=\""@), files, dirs);
    let mine = page_problems(page, pages[p].1@, files, dirs, defined);
    assert(mine == lp + cp);
    assert(mine[lp.len() + k] == msg);
    let before = pages.subrange(0, p);
    let one = seq![pages[p]];
    let after = pages.subrange(p + 1, pages.len() as int);
    assert(pages =~= before + one + after);
    lemma_problems_concat(before + one, after, files, dirs, defined);
    lemma_problems_concat(before, one, files, dirs, defined);
    assert(one.drop_last() =~= Seq::<(String, String)>::empty());
    assert(problems_spec(one.drop_last(), files, dirs, defined) =~= Seq::<Seq<char>>::empty());
    assert(one.last() == pages[p]);
    assert(problems_spec(one, files, dirs, defined) =~= mine);
    let all = problems_spec(pages, files, dirs, defined);
    let pre = problems_spec(before, files, dirs, defined);
    assert(all == pre + mine + problems_spec(after, files, dirs, defined));
    assert(all[pre.len() + lp.len() + k] == msg);
}

} // verus!
