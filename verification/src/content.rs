//! Posts: the frontmatter that heads each one, and the orders they are listed in.
use vstd::prelude::*;

use chrono::Datelike;

use crate::date::{before, valid_ymd, ymd_fields, ymd_text, Date};
use crate::frontmatter::strs_view;
use crate::text::{
    alnum, at_pat, chars_of, debug_str, find_char, find_char_spec, is_ascii_alnum,
    lemma_find_char_bounds, lemma_trim_end, lower, push_char, push_range, push_str, range_eq,
    range_string, starts_at, str_debug, str_lt, chars_lt, to_lower, trim_end, trim_end_pos,
    trim_start, trim_start_pos, lemma_chars_lt_irreflexive, lemma_chars_lt_total,
    lemma_chars_lt_transitive, str_eq,
};
use crate::xml::strings_view;

use crate::markdown::{html_of, md_events, render_markdown, rewrite_spec};
use crate::render::fill_ok;

verus! {

// -- Quoted values ------------------------------------------------------------

/// The characters of `s[a..k]` with backslash escapes resolved, and whether a
/// backslash is still waiting for the character it escapes.
pub open spec fn unesc_scan(s: Seq<char>, a: int, k: int) -> (Seq<char>, bool)
    decreases k - a,
{
    if k <= a {
        (seq![], false)
    } else {
        let (o, e) = unesc_scan(s, a, k - 1);
        if !e && s[k - 1] == '\\' {
            (o, true)
        } else {
            (o.push(s[k - 1]), false)
        }
    }
}

/// `s[a..b]` trimmed, then stripped of one pair of matching quotes: inside
/// double quotes a backslash makes the next character literal, inside single
/// quotes nothing is special.
pub open spec fn unquote_at(s: Seq<char>, a: int, b: int) -> Seq<char> {
    let p = trim_start_pos(s, a, b);
    let q = trim_end_pos(s, p, b);
    if q - p >= 2 && s[p] == '"' && s[q - 1] == '"' {
        unesc_scan(s, p + 1, q - 1).0
    } else if q - p >= 2 && s[p] == '\'' && s[q - 1] == '\'' {
        s.subrange(p + 1, q - 1)
    } else {
        s.subrange(p, q)
    }
}

fn unquote(s: &[char], a: usize, b: usize) -> (r: String)
    requires
        a <= b <= s@.len(),
    ensures
        r@ == unquote_at(s@, a as int, b as int),
{
    let p = trim_start(s, a, b);
    let q = trim_end(s, p, b);
    let mut out = String::new();
    if q - p >= 2 && s[p] == '"' && s[q - 1] == '"' {
        let mut escaped = false;
        let mut k = p + 1;
        while k < q - 1
            invariant
                p + 1 <= k <= q - 1,
                q <= s@.len(),
                (out@, escaped) == unesc_scan(s@, p + 1, k as int),
            decreases q - 1 - k,
        {
            let c = s[k];
            if !escaped && c == '\\' {
                escaped = true;
            } else {
                push_char(&mut out, c);
                escaped = false;
            }
            k += 1;
        }
    } else if q - p >= 2 && s[p] == '\'' && s[q - 1] == '\'' {
        push_range(&mut out, s, p + 1, q - 1);
    } else {
        push_range(&mut out, s, p, q);
    }
    out
}

/// Where the items of a flow list `s[a..k]` have ended so far: the ranges of
/// the finished items, where the current one starts, and the quote it is in.
/// A comma ends an item unless it is quoted.
pub open spec fn cut_scan(s: Seq<char>, a: int, k: int) -> (Seq<(int, int)>, int, Option<char>)
    decreases k - a,
{
    if k <= a {
        (seq![], a, None)
    } else {
        let (rs, st, q) = cut_scan(s, a, k - 1);
        let c = s[k - 1];
        match q {
            Some(qc) => if c == qc {
                (rs, st, None)
            } else {
                (rs, st, q)
            },
            None => if c == '"' || c == '\'' {
                (rs, st, Some(c))
            } else if c == ',' {
                (rs.push((st, k - 1)), k, None)
            } else {
                (rs, st, None)
            },
        }
    }
}

/// The items among the first `n` ranges of `rs` that are not empty once
/// unquoted, unquoted.
pub open spec fn keep_items(s: Seq<char>, rs: Seq<(int, int)>, n: int) -> Seq<Seq<char>>
    decreases n,
{
    if n <= 0 {
        seq![]
    } else {
        let prev = keep_items(s, rs, n - 1);
        let u = unquote_at(s, rs[n - 1].0, rs[n - 1].1);
        if u.len() > 0 {
            prev.push(u)
        } else {
            prev
        }
    }
}

/// The items of the flow list `s[a..b]` (what sits between `[` and `]`).
pub open spec fn split_items_spec(s: Seq<char>, a: int, b: int) -> Seq<Seq<char>> {
    let (rs, st, q) = cut_scan(s, a, b);
    let all = rs.push((st, b));
    keep_items(s, all, all.len() as int)
}

proof fn lemma_keep_items_prefix(s: Seq<char>, rs: Seq<(int, int)>, x: (int, int), n: int)
    requires
        0 <= n <= rs.len(),
    ensures
        keep_items(s, rs.push(x), n) == keep_items(s, rs, n),
    decreases n,
{
    if n > 0 {
        lemma_keep_items_prefix(s, rs, x, n - 1);
        assert(rs.push(x)[n - 1] == rs[n - 1]);
    }
}

proof fn lemma_cut_scan_bounds(s: Seq<char>, a: int, k: int)
    requires
        a <= k,
    ensures
        a <= cut_scan(s, a, k).1 <= k,
        forall|j: int| 0 <= j < cut_scan(s, a, k).0.len() ==> a <= (#[trigger] cut_scan(s, a, k).0[j]).0
            <= cut_scan(s, a, k).0[j].1 <= k,
    decreases k - a,
{
    if k > a {
        lemma_cut_scan_bounds(s, a, k - 1);
    }
}

proof fn lemma_strings_push(v: Seq<String>, x: String)
    ensures
        strings_view(v.push(x)) == strings_view(v).push(x@),
{
    assert(strings_view(v.push(x)) =~= strings_view(v).push(x@));
}

/// Appends the item `s[a..b]`, unquoted, unless it is empty.
fn keep(out: &mut Vec<String>, s: &[char], a: usize, b: usize)
    requires
        a <= b <= s@.len(),
    ensures
        strings_view(final(out)@) == (if unquote_at(s@, a as int, b as int).len() > 0 {
            strings_view(old(out)@).push(unquote_at(s@, a as int, b as int))
        } else {
            strings_view(old(out)@)
        }),
{
    let u = unquote(s, a, b);
    if u.as_str().unicode_len() > 0 {
        out.push(u);
        assert(strings_view(out@) =~= strings_view(old(out)@).push(unquote_at(s@, a as int, b as int)));
    }
}

fn split_items(s: &[char], a: usize, b: usize) -> (r: Vec<String>)
    requires
        a <= b <= s@.len(),
    ensures
        strings_view(r@) == split_items_spec(s@, a as int, b as int),
{
    let mut out: Vec<String> = Vec::new();
    let mut st = a;
    let mut quote: Option<char> = None;
    let mut k = a;
    proof { assert(strings_view(out@) =~= seq![]); }
    while k < b
        invariant
            a <= st <= k <= b <= s@.len(),
            cut_scan(s@, a as int, k as int).1 == st,
            cut_scan(s@, a as int, k as int).2 == quote,
            strings_view(out@) == keep_items(
                s@,
                cut_scan(s@, a as int, k as int).0,
                cut_scan(s@, a as int, k as int).0.len() as int,
            ),
        decreases b - k,
    {
        proof { lemma_cut_scan_bounds(s@, a as int, k as int); }
        let c = s[k];
        let ghost rs = cut_scan(s@, a as int, k as int).0;
        match quote {
            Some(q) => {
                if c == q {
                    quote = None;
                }
            },
            None => {
                if c == '"' || c == '\'' {
                    quote = Some(c);
                } else if c == ',' {
                    keep(&mut out, s, st, k);
                    proof {
                        lemma_keep_items_prefix(s@, rs, (st as int, k as int), rs.len() as int);
                    }
                    st = k + 1;
                }
            },
        }
        k += 1;
    }
    proof {
        let rs = cut_scan(s@, a as int, b as int).0;
        lemma_keep_items_prefix(s@, rs, (st as int, b as int), rs.len() as int);
    }
    keep(&mut out, s, st, b);
    out
}

/// The slug of `t[..k]`, and whether a `-` is owed before the next word: every
/// run of characters that are not ASCII letters or digits becomes one `-`
/// between words, and none at either end.
pub open spec fn slug_scan(t: Seq<char>, k: int) -> (Seq<char>, bool)
    decreases k,
{
    if k <= 0 || k > t.len() {
        (seq![], false)
    } else {
        let (o, pending) = slug_scan(t, k - 1);
        let c = t[k - 1];
        if !is_ascii_alnum(c) {
            (o, o.len() > 0)
        } else {
            ((if pending { o.push('-') } else { o }).push(lower(c)), false)
        }
    }
}

// -- Frontmatter lines --------------------------------------------------------

/// A frontmatter value: one scalar, or a list of them.
pub enum FrontValue {
    Scalar(Seq<char>),
    List(Seq<Seq<char>>),
}

/// A key and its value.
pub type FrontField = (Seq<char>, FrontValue);

enum Value {
    Scalar(String),
    List(Vec<String>),
}

spec fn value_view(v: Value) -> FrontValue {
    match v {
        Value::Scalar(x) => FrontValue::Scalar(x@),
        Value::List(items) => FrontValue::List(strings_view(items@)),
    }
}

spec fn fields_view(fs: Seq<(String, Value)>) -> Seq<FrontField> {
    fs.map_values(|f: (String, Value)| (f.0@, value_view(f.1)))
}

/// The strings of `v` with `sep` between each two.
pub open spec fn join_spec(v: Seq<Seq<char>>, sep: Seq<char>) -> Seq<char>
    decreases v.len(),
{
    if v.len() == 0 {
        seq![]
    } else if v.len() == 1 {
        v[0]
    } else {
        join_spec(v.drop_last(), sep) + sep + v.last()
    }
}

/// Where the line that starts at `a` ends in `s[..end]`: its `\n`, or `end`.
pub open spec fn nl_at(s: Seq<char>, a: int, end: int) -> int {
    match find_char_spec(s, a, end, '\n') {
        Some(k) => k,
        None => end,
    }
}

/// The end of that line's text: `str::lines` drops the `\r` of a `\r\n`.
pub open spec fn line_text_end(s: Seq<char>, a: int, end: int) -> int {
    let nl = nl_at(s, a, end);
    if nl < end && nl > a && s[nl - 1] == '\r' {
        nl - 1
    } else {
        nl
    }
}

/// Whether a field among `fs` has the key `k`.
pub open spec fn has_field(fs: Seq<FrontField>, k: Seq<char>) -> bool {
    exists|j: int| 0 <= j < fs.len() && (#[trigger] fs[j]).0 == k
}

/// The value after a key's `:`, in `s[a..b]`: a flow list in brackets, an
/// empty list for nothing, or a scalar.
pub open spec fn rest_value(s: Seq<char>, a: int, b: int) -> FrontValue {
    let p = trim_start_pos(s, a, b);
    let q = trim_end_pos(s, p, b);
    if q - p >= 2 && s[p] == '[' && s[q - 1] == ']' {
        FrontValue::List(split_items_spec(s, p + 1, q - 1))
    } else if p == q {
        FrontValue::List(seq![])
    } else {
        FrontValue::Scalar(unquote_at(s, p, q))
    }
}

pub open spec fn msg_orphan(line: Seq<char>) -> Seq<char> {
    "list item with no key above it: "@ + str_debug(line)
}

pub open spec fn msg_no_colon(line: Seq<char>) -> Seq<char> {
    "expected `key: value`, got "@ + str_debug(line)
}

pub open spec fn msg_unknown(key: Seq<char>, allowed: Seq<Seq<char>>) -> Seq<char> {
    "unknown key `"@ + key + "` (allowed: "@ + join_spec(allowed, ", "@) + ")"@
}

pub open spec fn msg_duplicate(key: Seq<char>) -> Seq<char> {
    "duplicate key `"@ + key + "`"@
}

/// The fields of the frontmatter lines of `s[a..end]`, after those already
/// read into `fs`; or what is wrong with the first line that is wrong. Blank
/// lines and `#` comments are skipped, `- item` extends the list above it, and
/// every other line is `key: value` with a key from `allowed`, once.
pub open spec fn front_from(
    s: Seq<char>,
    a: int,
    end: int,
    allowed: Seq<Seq<char>>,
    fs: Seq<FrontField>,
) -> Result<Seq<FrontField>, Seq<char>>
    decreases end + 1 - a,
{
    if !(0 <= a < end && end <= s.len()) {
        Ok(fs)
    } else {
        let nl = nl_at(s, a, end);
        let e = line_text_end(s, a, end);
        let ts = trim_start_pos(s, a, e);
        let line = s.subrange(a, e);
        if !(a <= nl <= end) {
            Ok(fs)
        } else if ts == e || s[ts] == '#' {
            front_from(s, nl + 1, end, allowed, fs)
        } else if ts + 2 <= e && s[ts] == '-' && s[ts + 1] == ' ' {
            if fs.len() > 0 && fs.last().1 is List {
                let items = fs.last().1->List_0;
                front_from(
                    s,
                    nl + 1,
                    end,
                    allowed,
                    fs.update(
                        fs.len() - 1,
                        (fs.last().0, FrontValue::List(items.push(unquote_at(s, ts + 2, e)))),
                    ),
                )
            } else {
                Err(msg_orphan(line))
            }
        } else {
            match find_char_spec(s, a, e, ':') {
                None => Err(msg_no_colon(line)),
                Some(c) => {
                    let kp = trim_start_pos(s, a, c);
                    let key = s.subrange(kp, trim_end_pos(s, kp, c));
                    if !allowed.contains(key) {
                        Err(msg_unknown(key, allowed))
                    } else if has_field(fs, key) {
                        Err(msg_duplicate(key))
                    } else {
                        front_from(s, nl + 1, end, allowed, fs.push((key, rest_value(s, c + 1, e))))
                    }
                },
            }
        }
    }
}

fn join(allowed: &[&str]) -> (r: String)
    ensures
        r@ == join_spec(strs_view(allowed@), ", "@),
{
    let mut out = String::new();
    let mut i: usize = 0;
    while i < allowed.len()
        invariant
            i <= allowed@.len(),
            out@ == join_spec(strs_view(allowed@).take(i as int), ", "@),
        decreases allowed@.len() - i,
    {
        if i > 0 {
            push_str(&mut out, ", ");
        }
        push_str(&mut out, allowed[i]);
        proof {
            let v = strs_view(allowed@);
            assert(v.take(i + 1).drop_last() =~= v.take(i as int));
        }
        i += 1;
    }
    proof { assert(strs_view(allowed@).take(allowed@.len() as int) =~= strs_view(allowed@)); }
    out
}

fn line_message(prefix: &str, s: &[char], a: usize, e: usize) -> (r: String)
    requires
        a <= e <= s@.len(),
    ensures
        r@ == prefix@ + str_debug(s@.subrange(a as int, e as int)),
{
    let mut out = String::new();
    push_str(&mut out, prefix);
    let line = range_string(s, a, e);
    let q = debug_str(line.as_str());
    push_str(&mut out, q.as_str());
    out
}

fn value_at(s: &[char], a: usize, b: usize) -> (r: Value)
    requires
        a <= b <= s@.len(),
    ensures
        value_view(r) == rest_value(s@, a as int, b as int),
{
    let p = trim_start(s, a, b);
    let q = trim_end(s, p, b);
    if q - p >= 2 && s[p] == '[' && s[q - 1] == ']' {
        Value::List(split_items(s, p + 1, q - 1))
    } else if p == q {
        let v: Vec<String> = Vec::new();
        proof { assert(strings_view(v@) =~= seq![]); }
        Value::List(v)
    } else {
        Value::Scalar(unquote(s, p, q))
    }
}

fn parse_front(s: &[char], start: usize, end: usize, allowed: &[&str]) -> (r: Result<Vec<(String, Value)>, String>)
    requires
        start <= end <= s@.len(),
    ensures
        match (r, front_from(s@, start as int, end as int, strs_view(allowed@), seq![])) {
            (Ok(fs), Ok(v)) => fields_view(fs@) == v,
            (Err(e), Err(m)) => e@ == m,
            _ => false,
        },
{
    let ghost al = strs_view(allowed@);
    let mut fields: Vec<(String, Value)> = Vec::new();
    let mut a = start;
    proof { assert(fields_view(fields@) =~= seq![]); }
    while a < end
        invariant
            start <= a <= end <= s@.len(),
            al == strs_view(allowed@),
            front_from(s@, start as int, end as int, al, seq![]) == front_from(
                s@,
                a as int,
                end as int,
                al,
                fields_view(fields@),
            ),
        decreases end - a,
    {
        proof { lemma_find_char_bounds(s@, a as int, end as int, '\n'); }
        let nl = match find_char(s, a, end, '\n') {
            Some(k) => k,
            None => end,
        };
        let e = if nl < end && nl > a && s[nl - 1] == '\r' { nl - 1 } else { nl };
        let ts = trim_start(s, a, e);
        let ghost fv = fields_view(fields@);
        if ts == e || s[ts] == '#' {
        } else if e - ts >= 2 && s[ts] == '-' && s[ts + 1] == ' ' {
            let n = fields.len();
            if n == 0 {
                return Err(line_message("list item with no key above it: ", s, a, e));
            }
            let (key, value) = fields.pop().unwrap();
            match value {
                Value::List(mut items) => {
                    let u = unquote(s, ts + 2, e);
                    items.push(u);
                    fields.push((key, Value::List(items)));
                    proof {
                        assert(strings_view(items@) =~= fv.last().1->List_0.push(
                            unquote_at(s@, ts + 2, e as int),
                        ));
                        assert(fields_view(fields@) =~= fv.update(
                            fv.len() - 1,
                            (fv.last().0, FrontValue::List(
                                fv.last().1->List_0.push(unquote_at(s@, ts + 2, e as int)),
                            )),
                        ));
                    }
                },
                Value::Scalar(_) => {
                    return Err(line_message("list item with no key above it: ", s, a, e));
                },
            }
        } else {
            proof { lemma_find_char_bounds(s@, a as int, e as int, ':'); }
            let c = match find_char(s, a, e, ':') {
                Some(c) => c,
                None => {
                    return Err(line_message("expected `key: value`, got ", s, a, e));
                },
            };
            let kp = trim_start(s, a, c);
            let kq = trim_end(s, kp, c);
            let ghost key = s@.subrange(kp as int, kq as int);
            let mut known = false;
            let mut i: usize = 0;
            while i < allowed.len()
                invariant
                    i <= allowed@.len(),
                    kp <= kq <= s@.len(),
                    al == strs_view(allowed@),
                    key == s@.subrange(kp as int, kq as int),
                    known == exists|j: int| 0 <= j < i && al[j] == key,
                decreases allowed@.len() - i,
            {
                proof { assert(al[i as int] == allowed@[i as int]@); }
                if range_eq(s, kp, kq, allowed[i]) {
                    known = true;
                }
                i += 1;
            }
            if !known {
                proof {
                    if al.contains(key) {
                        let j = choose|j: int| 0 <= j < al.len() && al[j] == key;
                        assert(al[j] == key);
                    }
                }
                let mut m = String::new();
                push_str(&mut m, "unknown key `");
                push_range(&mut m, s, kp, kq);
                push_str(&mut m, "` (allowed: ");
                let j = join(allowed);
                push_str(&mut m, j.as_str());
                push_str(&mut m, ")");
                return Err(m);
            }
            let mut dup = false;
            let mut i: usize = 0;
            while i < fields.len()
                invariant
                    i <= fields@.len(),
                    kp <= kq <= s@.len(),
                    fv == fields_view(fields@),
                    key == s@.subrange(kp as int, kq as int),
                    dup == exists|j: int| 0 <= j < i && fv[j].0 == key,
                decreases fields@.len() - i,
            {
                proof { assert(fv[i as int].0 == fields@[i as int].0@); }
                if range_eq(s, kp, kq, fields[i].0.as_str()) {
                    dup = true;
                }
                i += 1;
            }
            if dup {
                let mut m = String::new();
                push_str(&mut m, "duplicate key `");
                push_range(&mut m, s, kp, kq);
                push_str(&mut m, "`");
                return Err(m);
            }
            proof {
                if has_field(fv, key) {
                    let j = choose|j: int| 0 <= j < fv.len() && (#[trigger] fv[j]).0 == key;
                    assert(fv[j].0 == key);
                }
            }
            let k = range_string(s, kp, kq);
            let v = value_at(s, c + 1, e);
            fields.push((k, v));
            proof { assert(fields_view(fields@) =~= fv.push((key, rest_value(s@, c + 1, e as int)))); }
        }
        proof {
            assert(front_from(s@, a as int, end as int, al, fv) == front_from(
                s@,
                nl + 1,
                end as int,
                al,
                fields_view(fields@),
            ));
            if nl == end {
                assert(front_from(s@, nl + 1, end as int, al, fields_view(fields@)) == front_from(
                    s@,
                    end as int,
                    end as int,
                    al,
                    fields_view(fields@),
                ));
            }
        }
        a = if nl < end { nl + 1 } else { end };
    }
    Ok(fields)
}

// -- The fences ---------------------------------------------------------------

/// How long the opening fence is: `---` alone on the first line.
pub open spec fn open_fence(s: Seq<char>) -> Option<int> {
    if at_pat(s, 0, s.len() as int, "---\n"@) {
        Some(4)
    } else if at_pat(s, 0, s.len() as int, "---\r\n"@) {
        Some(5)
    } else {
        None
    }
}

/// Where the line that starts at `p` ends, its `\n` included.
pub open spec fn next_line(s: Seq<char>, p: int) -> int {
    match find_char_spec(s, p, s.len() as int, '\n') {
        Some(k) => k + 1,
        None => s.len() as int,
    }
}

/// The start of the first line at or after `p` that reads `---` once
/// trailing whitespace is trimmed.
pub open spec fn close_fence(s: Seq<char>, p: int) -> Option<int>
    decreases s.len() + 1 - p,
{
    if !(0 <= p < s.len()) {
        None
    } else {
        let le = next_line(s, p);
        if !(p < le <= s.len()) {
            None
        } else if trim_end_pos(s, p, le) == p + 3 && s.subrange(p, p + 3) == "---"@ {
            Some(p)
        } else {
            close_fence(s, le)
        }
    }
}

/// `k` moved past any `\r` and `\n`.
pub open spec fn skip_newlines(s: Seq<char>, k: int) -> int
    decreases s.len() - k,
{
    if 0 <= k < s.len() && (s[k] == '\r' || s[k] == '\n') {
        skip_newlines(s, k + 1)
    } else {
        k
    }
}

pub open spec fn msg_no_open() -> Seq<char> {
    "missing opening `---` on a line of its own (frontmatter is required)"@
}

pub open spec fn msg_no_close() -> Seq<char> {
    "missing closing `---` (frontmatter is never terminated)"@
}

/// Where the frontmatter starts, where its closing fence starts, and where
/// the body starts.
pub open spec fn split_spec(s: Seq<char>) -> Result<(int, int, int), Seq<char>> {
    match open_fence(s) {
        None => Err(msg_no_open()),
        Some(o) => match close_fence(s, o) {
            None => Err(msg_no_close()),
            Some(c) => Ok((o, c, skip_newlines(s, next_line(s, c)))),
        },
    }
}

fn split_frontmatter(s: &[char]) -> (r: Result<(usize, usize, usize), String>)
    ensures
        match (r, split_spec(s@)) {
            (Ok(t), Ok(v)) => t.0 == v.0 && t.1 == v.1 && t.2 == v.2 && t.0 <= t.1 <= t.2
                <= s@.len(),
            (Err(e), Err(m)) => e@ == m,
            _ => false,
        },
{
    let n = s.len();
    let open: usize = if starts_at(s, 0, n, "---\n") {
        4
    } else if starts_at(s, 0, n, "---\r\n") {
        5
    } else {
        return Err("missing opening `---` on a line of its own (frontmatter is required)".to_owned());
    };
    proof {
        reveal_strlit("---\n");
        reveal_strlit("---\r\n");
    }
    let mut p = open;
    while p < n
        invariant
            open <= p <= n == s@.len(),
            open_fence(s@) == Some(open as int),
            close_fence(s@, open as int) == close_fence(s@, p as int),
        decreases n - p,
    {
        proof { lemma_find_char_bounds(s@, p as int, n as int, '\n'); }
        let le = match find_char(s, p, n, '\n') {
            Some(k) => k + 1,
            None => n,
        };
        proof { lemma_trim_end(s@, p as int, le as int); }
        if trim_end(s, p, le) - p == 3 && range_eq(s, p, p + 3, "---") {
            let mut b = le;
            while b < n && (s[b] == '\r' || s[b] == '\n')
                invariant
                    le <= b <= n == s@.len(),
                    skip_newlines(s@, le as int) == skip_newlines(s@, b as int),
                decreases n - b,
            {
                b += 1;
            }
            return Ok((open, p, b));
        }
        p = le;
    }
    Err("missing closing `---` (frontmatter is never terminated)".to_owned())
}

// -- Fields -------------------------------------------------------------------

/// The first field at or after `i` with the key `k`.
pub open spec fn field_at(fs: Seq<FrontField>, k: Seq<char>, i: int) -> Option<int>
    decreases fs.len() - i,
{
    if !(0 <= i < fs.len()) {
        None
    } else if fs[i].0 == k {
        Some(i)
    } else {
        field_at(fs, k, i + 1)
    }
}

proof fn lemma_field_at(fs: Seq<FrontField>, k: Seq<char>, i: int)
    requires
        0 <= i,
    ensures
        field_at(fs, k, i) matches Some(j) ==> i <= j < fs.len() && fs[j].0 == k,
    decreases fs.len() - i,
{
    if 0 <= i < fs.len() && fs[i].0 != k {
        lemma_field_at(fs, k, i + 1);
    }
}

/// The value of `k`.
pub open spec fn field_spec(fs: Seq<FrontField>, k: Seq<char>) -> Option<FrontValue> {
    match field_at(fs, k, 0) {
        Some(j) => Some(fs[j].1),
        None => None,
    }
}

/// The scalar value of `k`, if it has one; a list there is an error.
pub open spec fn scalar_spec(fs: Seq<FrontField>, k: Seq<char>) -> Result<Option<Seq<char>>, Seq<char>> {
    match field_spec(fs, k) {
        None => Ok(None),
        Some(FrontValue::Scalar(x)) => Ok(Some(x)),
        Some(FrontValue::List(_)) => Err("`"@ + k + "` must be a single value, not a list"@),
    }
}

fn find_field(fields: &Vec<(String, Value)>, key: &str) -> (r: Option<usize>)
    ensures
        match r {
            Some(j) => field_at(fields_view(fields@), key@, 0) == Some(j as int),
            None => field_at(fields_view(fields@), key@, 0) is None,
        },
        r matches Some(j) ==> j < fields@.len(),
{
    let ghost fv = fields_view(fields@);
    let mut i: usize = 0;
    while i < fields.len()
        invariant
            i <= fields@.len(),
            fv == fields_view(fields@),
            field_at(fv, key@, 0) == field_at(fv, key@, i as int),
        decreases fields@.len() - i,
    {
        proof { assert(fv[i as int].0 == fields@[i as int].0@); }
        if crate::text::str_eq(fields[i].0.as_str(), key) {
            return Some(i);
        }
        i += 1;
    }
    None
}

fn scalar(fields: &Vec<(String, Value)>, key: &str) -> (r: Result<Option<String>, String>)
    ensures
        match (r, scalar_spec(fields_view(fields@), key@)) {
            (Ok(Some(x)), Ok(Some(v))) => x@ == v,
            (Ok(None), Ok(None)) => true,
            (Err(e), Err(m)) => e@ == m,
            _ => false,
        },
{
    let ghost fv = fields_view(fields@);
    proof { lemma_field_at(fv, key@, 0); }
    match find_field(fields, key) {
        None => Ok(None),
        Some(j) => {
            proof { assert(fv[j as int] == (fields@[j as int].0@, value_view(fields@[j as int].1))); }
            match &fields[j].1 {
                Value::Scalar(x) => {
                    Ok(Some(x.clone()))
                },
                Value::List(_) => {
                    let mut m = String::new();
                    push_str(&mut m, "`");
                    push_str(&mut m, key);
                    push_str(&mut m, "` must be a single value, not a list");
                    Err(m)
                },
            }
        },
    }
}

// -- Posts --------------------------------------------------------------------

/// The fields of a `YYYY-MM-DD` text as chrono hands them out.
pub open spec fn ymd_triple(pd: Seq<char>) -> (i32, u32, u32) {
    (ymd_fields(pd).0 as i32, ymd_fields(pd).1 as u32, ymd_fields(pd).2 as u32)
}

/// What a `pubDate` text reads as: for four, two and two digits naming a real
/// date, that date; otherwise what chrono makes of it.
pub open spec fn date_read(pd: Seq<char>) -> Result<(i32, u32, u32), Seq<char>> {
    if ymd_text(pd) {
        Ok(ymd_triple(pd))
    } else {
        naive_date_parsed(pd, "%Y-%m-%d"@)
    }
}

/// What chrono reads in `raw` with the format `fmt`: a date as year, month and
/// day, or the words chrono displays for why there is none.
pub uninterp spec fn naive_date_parsed(raw: Seq<char>, fmt: Seq<char>) -> Result<(i32, u32, u32), Seq<char>>;

/// `chrono::NaiveDate::parse_from_str(raw, fmt)`, the date taken apart into
/// year, month and day and the error displayed. Claimed: the result is
/// `naive_date_parsed(raw, fmt)`; a date chrono returns exists in the
/// proleptic Gregorian calendar (a `NaiveDate` is always a valid date); and
/// with the format `%Y-%m-%d`, four, two and two digits naming a real date
/// read as that date (`%Y` takes up to four digits unsigned, `%m` and `%d`
/// two each, as chrono's documentation shows for `2015-09-05`).
#[verifier::external_body]
fn chrono_parse_date(raw: &str, fmt: &str) -> (r: Result<(i32, u32, u32), String>)
    ensures
        (fmt@ == "%Y-%m-%d"@ && ymd_text(raw@)) ==> (r is Ok && r->Ok_0 == ymd_triple(raw@)),
        match r {
            Ok(t) => naive_date_parsed(raw@, fmt@) == Ok::<(i32, u32, u32), Seq<char>>(t)
                && valid_ymd(t.0 as int, t.1 as int, t.2 as int),
            Err(e) => naive_date_parsed(raw@, fmt@) == Err::<(i32, u32, u32), Seq<char>>(e@),
        },
{
    match chrono::NaiveDate::parse_from_str(raw, fmt) {
        Ok(d) => Ok((d.year(), d.month(), d.day())),
        Err(e) => Err(e.to_string()),
    }
}

/// The keys a post's frontmatter may declare.
pub const KEYS: [&'static str; 6] = ["title", "subtitle", "description", "draft", "pubDate", "tags"];

/// A post, read from its file; `html` is what its body renders to, which the
/// markdown renderer fills in.
#[derive(Debug)]
pub struct Post {
    pub slug: String,
    pub title: String,
    pub subtitle: Option<String>,
    pub pub_date: Date,
    pub tags: Vec<String>,
    pub description: Option<String>,
    pub draft: bool,
    pub body: String,
    pub html: String,
}

/// A post as plain values, `html` aside.
pub struct PostSpec {
    pub slug: Seq<char>,
    pub title: Seq<char>,
    pub subtitle: Option<Seq<char>>,
    pub pub_date: (int, int, int),
    pub tags: Seq<Seq<char>>,
    pub description: Option<Seq<char>>,
    pub draft: bool,
    pub body: Seq<char>,
}

pub open spec fn opt_view(o: Option<String>) -> Option<Seq<char>> {
    match o {
        Some(x) => Some(x@),
        None => None,
    }
}

pub open spec fn post_view(p: Post) -> PostSpec {
    PostSpec {
        slug: p.slug@,
        title: p.title@,
        subtitle: opt_view(p.subtitle),
        pub_date: p.pub_date@,
        tags: strings_view(p.tags@),
        description: opt_view(p.description),
        draft: p.draft,
        body: p.body@,
    }
}

pub open spec fn tags_spec(fs: Seq<FrontField>) -> Result<Seq<Seq<char>>, Seq<char>> {
    match field_spec(fs, "tags"@) {
        None => Ok(seq![]),
        Some(FrontValue::List(items)) => Ok(items),
        Some(FrontValue::Scalar(_)) => Err("`tags` must be a list"@),
    }
}

pub open spec fn draft_spec(d: Option<Seq<char>>) -> Result<bool, Seq<char>> {
    match d {
        None => Ok(false),
        Some(x) => if x == "true"@ {
            Ok(true)
        } else if x == "false"@ {
            Ok(false)
        } else {
            Err("`draft` must be true or false, got "@ + str_debug(x))
        },
    }
}

/// The post in `raw`, under `slug`: frontmatter between `---` fences, then the
/// body. Every error is the first one met, in the order: the fences, the
/// frontmatter lines, `tags`, `draft`, `pubDate`, `title`, `subtitle`,
/// `description`.
pub open spec fn parse_spec(raw: Seq<char>, slug: Seq<char>) -> Result<PostSpec, Seq<char>> {
    match split_spec(raw) {
        Err(e) => Err(e),
        Ok((o, c, b)) => match front_from(raw, o, c, strs_view(KEYS@), seq![]) {
            Err(e) => Err(e),
            Ok(fs) => match tags_spec(fs) {
                Err(e) => Err(e),
                Ok(tags) => match scalar_spec(fs, "draft"@) {
                    Err(e) => Err(e),
                    Ok(d) => match draft_spec(d) {
                        Err(e) => Err(e),
                        Ok(draft) => match scalar_spec(fs, "pubDate"@) {
                            Err(e) => Err(e),
                            Ok(None) => Err("missing `pubDate`"@),
                            Ok(Some(pd)) => match date_read(pd) {
                                Err(e) => Err("invalid `pubDate` "@ + str_debug(pd) + ": "@ + e),
                                Ok(ymd) => match scalar_spec(fs, "title"@) {
                                    Err(e) => Err(e),
                                    Ok(None) => Err("missing `title`"@),
                                    Ok(Some(title)) => match scalar_spec(fs, "subtitle"@) {
                                        Err(e) => Err(e),
                                        Ok(subtitle) => match scalar_spec(fs, "description"@) {
                                            Err(e) => Err(e),
                                            Ok(description) => Ok(
                                                PostSpec {
                                                    slug,
                                                    title,
                                                    subtitle,
                                                    pub_date: (ymd.0 as int, ymd.1 as int, ymd.2 as int),
                                                    tags,
                                                    description,
                                                    draft,
                                                    body: raw.subrange(b, raw.len() as int),
                                                },
                                            ),
                                        },
                                    },
                                },
                            },
                        },
                    },
                },
            },
        },
    }
}

/// What a post says when a code block in its body cannot be highlighted.
pub open spec fn msg_highlight() -> Seq<char> {
    "a code block could not be highlighted"@
}

/// Reads a post: its frontmatter into fields, its body as it stands, and the
/// body rendered from Markdown to `html`, code blocks set in `code_block`.
pub fn parse(raw: &str, slug: &str, code_block: &str) -> (r: Result<Post, String>)
    requires
        fill_ok(code_block@, seq!["lang"@, "code"@]),
    ensures
        match (r, parse_spec(raw@, slug@)) {
            (Ok(p), Ok(v)) => post_view(p) == v && (rewrite_spec(md_events(v.body), code_block@) matches Some(
                evs,
            ) && p.html@ == html_of(v.body, evs)),
            (Err(e), Ok(v)) => rewrite_spec(md_events(v.body), code_block@) is None && e@ == msg_highlight(),
            (Err(e), Err(m)) => e@ == m,
            _ => false,
        },
{
    let s = chars_of(raw);
    let (o, c, b) = match split_frontmatter(s.as_slice()) {
        Ok(t) => t,
        Err(e) => return Err(e),
    };
    let fields = match parse_front(s.as_slice(), o, c, &KEYS) {
        Ok(f) => f,
        Err(e) => return Err(e),
    };
    let ghost fv = fields_view(fields@);
    proof { lemma_field_at(fv, "tags"@, 0); }
    let tags: Vec<String> = match find_field(&fields, "tags") {
        None => Vec::new(),
        Some(j) => {
            proof { assert(fv[j as int] == (fields@[j as int].0@, value_view(fields@[j as int].1))); }
            match &fields[j].1 {
                Value::List(items) => {
                    let mut out: Vec<String> = Vec::new();
                    let mut i: usize = 0;
                    while i < items.len()
                        invariant
                            i <= items@.len(),
                            strings_view(out@) == strings_view(items@).take(i as int),
                        decreases items@.len() - i,
                    {
                        let ghost before = out@;
                        let item = items[i].clone();
                        out.push(item);
                        proof {
                            assert(out@ == before.push(items@[i as int]));
                            lemma_strings_push(before, items@[i as int]);
                            assert(strings_view(out@) =~= strings_view(items@).take(i + 1));
                        }
                        i += 1;
                    }
                    proof { assert(strings_view(items@).take(items@.len() as int) =~= strings_view(items@)); }
                    out
                },
                Value::Scalar(_) => return Err("`tags` must be a list".to_owned()),
            }
        },
    };
    proof {
        reveal_strlit("tags");
        if tags@.len() == 0 {
            assert(strings_view(tags@) =~= seq![]);
        }
    }
    let draft = match scalar(&fields, "draft") {
        Err(e) => return Err(e),
        Ok(None) => false,
        Ok(Some(d)) => {
            if crate::text::str_eq(d.as_str(), "true") {
                true
            } else if crate::text::str_eq(d.as_str(), "false") {
                false
            } else {
                let mut m = String::new();
                push_str(&mut m, "`draft` must be true or false, got ");
                let q = debug_str(d.as_str());
                push_str(&mut m, q.as_str());
                return Err(m);
            }
        },
    };
    let pd = match scalar(&fields, "pubDate") {
        Err(e) => return Err(e),
        Ok(None) => return Err("missing `pubDate`".to_owned()),
        Ok(Some(pd)) => pd,
    };
    let (y, m, d) = match chrono_parse_date(pd.as_str(), "%Y-%m-%d") {
        Ok(t) => t,
        Err(e) => {
            let mut msg = String::new();
            push_str(&mut msg, "invalid `pubDate` ");
            let q = debug_str(pd.as_str());
            push_str(&mut msg, q.as_str());
            push_str(&mut msg, ": ");
            push_str(&mut msg, e.as_str());
            return Err(msg);
        },
    };
    let pub_date = match Date::from_ymd(y, m, d) {
        Ok(date) => date,
        Err(e) => {
            assert(valid_ymd(y as int, m as int, d as int));
            return Err(e);
        },
    };
    let title = match scalar(&fields, "title") {
        Err(e) => return Err(e),
        Ok(None) => return Err("missing `title`".to_owned()),
        Ok(Some(t)) => t,
    };
    let subtitle = match scalar(&fields, "subtitle") {
        Err(e) => return Err(e),
        Ok(x) => x,
    };
    let description = match scalar(&fields, "description") {
        Err(e) => return Err(e),
        Ok(x) => x,
    };
    let body = range_string(s.as_slice(), b, s.len());
    let html = match render_markdown(body.as_str(), code_block) {
        Some(h) => h,
        None => {
            let mut e = String::new();
            push_str(&mut e, "a code block could not be highlighted");
            return Err(e);
        },
    };
    Ok(
        Post {
            slug: slug.to_owned(),
            title,
            subtitle,
            pub_date,
            tags,
            description,
            draft,
            body,
            html,
        },
    )
}

impl Post {
    /// What the post is about in a sentence: its description, else its
    /// subtitle.
    pub fn summary(&self) -> (r: Option<&str>)
        ensures
            match (r, self.description, self.subtitle) {
                (Some(x), Some(d), _) => x@ == d@,
                (Some(x), None, Some(t)) => x@ == t@,
                (None, None, None) => true,
                _ => false,
            },
    {
        match &self.description {
            Some(d) => Some(d.as_str()),
            None => match &self.subtitle {
                Some(t) => Some(t.as_str()),
                None => None,
            },
        }
    }
}

// -- Orders -------------------------------------------------------------------

/// Whether `a` is listed after `b`: it is older, or as old with a later slug.
pub open spec fn listed_after(a: Post, b: Post) -> bool {
    before(a.pub_date@, b.pub_date@) || (a.pub_date@ == b.pub_date@ && chars_lt(b.slug@, a.slug@))
}

/// Where `x` goes among `s[i..]`: before the first post listed after it.
pub open spec fn insert_pos(s: Seq<Post>, x: Post, i: int) -> int
    decreases s.len() - i,
{
    if i < 0 || i >= s.len() {
        s.len() as int
    } else if listed_after(s[i], x) {
        i
    } else {
        insert_pos(s, x, i + 1)
    }
}

pub(crate) proof fn lemma_insert_pos(s: Seq<Post>, x: Post, i: int)
    requires
        0 <= i <= s.len(),
    ensures
        i <= insert_pos(s, x, i) <= s.len(),
    decreases s.len() - i,
{
    if i < s.len() && !listed_after(s[i], x) {
        lemma_insert_pos(s, x, i + 1);
    }
}

/// `s` newest first, and among posts of one day by slug: each post in turn
/// goes before the first one listed after it, so equals keep their order.
pub open spec fn newest_first_spec(s: Seq<Post>) -> Seq<Post>
    decreases s.len(),
{
    if s.len() == 0 {
        seq![]
    } else {
        let r = newest_first_spec(s.drop_last());
        r.insert(insert_pos(r, s.last(), 0), s.last())
    }
}

pub(crate) proof fn lemma_newest_first_len(s: Seq<Post>)
    ensures
        newest_first_spec(s).len() == s.len(),
    decreases s.len(),
{
    if s.len() > 0 {
        lemma_newest_first_len(s.drop_last());
        lemma_insert_pos(newest_first_spec(s.drop_last()), s.last(), 0);
    }
}

proof fn lemma_insert_pos_scan(s: Seq<Post>, x: Post, i: int)
    requires
        0 <= i <= s.len(),
    ensures
        forall|k: int| i <= k < insert_pos(s, x, i) ==> !listed_after(#[trigger] s[k], x),
        insert_pos(s, x, i) < s.len() ==> listed_after(s[insert_pos(s, x, i)], x),
    decreases s.len() - i,
{
    if i < s.len() && !listed_after(s[i], x) {
        lemma_insert_pos_scan(s, x, i + 1);
    }
}

/// Listing after is a strict weak order: transitive, never both ways, and not
/// listing after is transitive too.
proof fn lemma_listed_order(a: Post, b: Post, c: Post)
    ensures
        listed_after(a, b) && listed_after(b, c) ==> listed_after(a, c),
        listed_after(a, b) ==> !listed_after(b, a),
        !listed_after(a, b) && !listed_after(b, c) ==> !listed_after(a, c),
{
    lemma_chars_lt_irreflexive(a.slug@);
    if chars_lt(b.slug@, a.slug@) && chars_lt(c.slug@, b.slug@) {
        lemma_chars_lt_transitive(c.slug@, b.slug@, a.slug@);
    }
    if chars_lt(b.slug@, a.slug@) && chars_lt(a.slug@, b.slug@) {
        lemma_chars_lt_transitive(b.slug@, a.slug@, b.slug@);
        lemma_chars_lt_irreflexive(b.slug@);
    }
    if a.pub_date@ == b.pub_date@ && b.pub_date@ == c.pub_date@ && !chars_lt(b.slug@, a.slug@)
        && !chars_lt(c.slug@, b.slug@) && chars_lt(c.slug@, a.slug@) {
        if a.slug@ != b.slug@ {
            lemma_chars_lt_total(a.slug@, b.slug@);
            lemma_chars_lt_transitive(c.slug@, a.slug@, b.slug@);
            if b.slug@ != c.slug@ {
                lemma_chars_lt_total(b.slug@, c.slug@);
                lemma_chars_lt_transitive(b.slug@, c.slug@, b.slug@);
                lemma_chars_lt_irreflexive(b.slug@);
            } else {
                lemma_chars_lt_irreflexive(b.slug@);
            }
        } else if b.slug@ != c.slug@ {
            lemma_chars_lt_total(b.slug@, c.slug@);
        } else {
            lemma_chars_lt_irreflexive(c.slug@);
        }
    }
}

/// Posts in the order they are listed in: no post is listed after one that
/// follows it, and the posts listed are the posts given, each as often as it is
/// given.
pub proof fn lemma_newest_first(s: Seq<Post>)
    ensures
        forall|i: int, j: int| 0 <= i < j < newest_first_spec(s).len() ==> !listed_after(
            #[trigger] newest_first_spec(s)[i],
            #[trigger] newest_first_spec(s)[j],
        ),
        newest_first_spec(s).to_multiset() == s.to_multiset(),
    decreases s.len(),
{
    broadcast use vstd::seq_lib::to_multiset_insert, vstd::seq_lib::to_multiset_build;

    if s.len() > 0 {
        let r = newest_first_spec(s.drop_last());
        let x = s.last();
        lemma_newest_first(s.drop_last());
        lemma_insert_pos(r, x, 0);
        lemma_insert_pos_scan(r, x, 0);
        let p = insert_pos(r, x, 0);
        let t = r.insert(p, x);
        assert(t == newest_first_spec(s));
        assert forall|i: int, j: int| 0 <= i < j < t.len() implies !listed_after(
            #[trigger] t[i],
            #[trigger] t[j],
        ) by {
            if j < p {
            } else if j == p {
                assert(!listed_after(r[i], x));
            } else if i < p {
                assert(t[j] == r[j - 1]);
            } else if i == p {
                assert(t[j] == r[j - 1]);
                lemma_listed_order(r[p], x, x);
                if p < j - 1 {
                    assert(!listed_after(r[p], r[j - 1]));
                    lemma_listed_order(x, r[p], r[j - 1]);
                    lemma_listed_order(r[j - 1], r[p], x);
                    lemma_listed_order(x, r[j - 1], r[p]);
                    lemma_listed_order(r[p], r[j - 1], x);
                }
            } else {
                assert(t[i] == r[i - 1]);
                assert(t[j] == r[j - 1]);
            }
        }
        assert(t.to_multiset() == r.to_multiset().insert(x));
        assert(s.drop_last().push(x).to_multiset() == s.drop_last().to_multiset().insert(x));
        assert(s.drop_last().push(x) =~= s);
    } else {
        assert(s =~= Seq::<Post>::empty());
    }
}

fn later(a: &Post, b: &Post) -> (r: bool)
    ensures
        r == listed_after(*a, *b),
{
    let older = a.pub_date < b.pub_date;
    let newer = b.pub_date < a.pub_date;
    older || (!newer && str_lt(b.slug.as_str(), a.slug.as_str()))
}

/// The posts newest first; posts of one day by slug.
pub fn newest_first(posts: Vec<Post>) -> (r: Vec<Post>)
    ensures
        r@ == newest_first_spec(posts@),
{
    let ghost orig = posts@;
    let mut posts = posts;
    let mut out: Vec<Post> = Vec::new();
    let ghost mut i: int = 0;
    proof { assert(orig.skip(0) =~= orig); }
    while posts.len() > 0
        invariant
            0 <= i <= orig.len(),
            posts@ == orig.skip(i),
            out@ == newest_first_spec(orig.take(i)),
        decreases posts@.len(),
    {
        let p = posts.remove(0);
        proof { lemma_newest_first_len(orig.take(i)); }
        let mut k: usize = 0;
        while k < out.len() && !later(&out[k], &p)
            invariant
                k <= out@.len(),
                insert_pos(out@, p, 0) == insert_pos(out@, p, k as int),
            decreases out@.len() - k,
        {
            k += 1;
        }
        proof {
            assert(orig.take(i + 1).drop_last() =~= orig.take(i));
            assert(orig.take(i + 1).last() == p);
        }
        out.insert(k, p);
        proof {
            assert(posts@ =~= orig.skip(i + 1));
            i = i + 1;
        }
    }
    proof { assert(orig.take(i) =~= orig); }
    out
}

/// Every tag of `ps`, post after post.
pub open spec fn all_tags(ps: Seq<Post>) -> Seq<Seq<char>>
    decreases ps.len(),
{
    if ps.len() == 0 {
        seq![]
    } else {
        all_tags(ps.drop_last()) + strings_view(ps.last().tags@)
    }
}

/// How many times `t` occurs in `s`.
pub open spec fn count_in(s: Seq<Seq<char>>, t: Seq<char>) -> nat
    decreases s.len(),
{
    if s.len() == 0 {
        0
    } else {
        count_in(s.drop_last(), t) + if s.last() == t {
            1nat
        } else {
            0nat
        }
    }
}

/// Whether tag count `a` is listed before `b`: more posts, or as many and an
/// earlier name.
pub open spec fn count_before(a: (Seq<char>, nat), b: (Seq<char>, nat)) -> bool {
    a.1 > b.1 || (a.1 == b.1 && chars_lt(a.0, b.0))
}

/// Whether one of the first `n` counts is for the tag `x`.
pub open spec fn has_name(v: Seq<(&str, usize)>, n: int, x: Seq<char>) -> bool {
    exists|m: int| 0 <= m < n && (#[trigger] v[m]).0@ == x
}

pub open spec fn count_view(e: (&str, usize)) -> (Seq<char>, nat) {
    (e.0@, e.1 as nat)
}

proof fn lemma_count_push(s: Seq<Seq<char>>, x: Seq<char>, t: Seq<char>)
    ensures
        count_in(s.push(x), t) == count_in(s, t) + if x == t {
            1nat
        } else {
            0nat
        },
{
    assert(s.push(x).drop_last() =~= s);
}

proof fn lemma_count_bound(s: Seq<Seq<char>>, t: Seq<char>)
    ensures
        count_in(s, t) <= s.len(),
    decreases s.len(),
{
    if s.len() > 0 {
        lemma_count_bound(s.drop_last(), t);
    }
}

proof fn lemma_all_tags_step(ps: Seq<Post>, i: int)
    requires
        0 <= i < ps.len(),
    ensures
        all_tags(ps.take(i + 1)) == all_tags(ps.take(i)) + strings_view(ps[i].tags@),
{
    assert(ps.take(i + 1).drop_last() =~= ps.take(i));
}

proof fn lemma_all_tags_grow(ps: Seq<Post>, i: int, n: int)
    requires
        0 <= i <= n <= ps.len(),
    ensures
        all_tags(ps.take(i)).len() <= all_tags(ps.take(n)).len(),
    decreases n - i,
{
    if i < n {
        lemma_all_tags_grow(ps, i, n - 1);
        lemma_all_tags_step(ps, n - 1);
    }
}

proof fn lemma_count_order(a: (Seq<char>, nat), b: (Seq<char>, nat), c: (Seq<char>, nat))
    ensures
        count_before(a, b) && count_before(b, c) ==> count_before(a, c),
        a.0 != b.0 ==> count_before(a, b) || count_before(b, a),
        !count_before(a, a),
{
    if count_before(a, b) && count_before(b, c) && a.1 == b.1 && b.1 == c.1 {
        lemma_chars_lt_transitive(a.0, b.0, c.0);
    }
    if a.0 != b.0 {
        lemma_chars_lt_total(a.0, b.0);
    }
    lemma_chars_lt_irreflexive(a.0);
}

fn count_first(a: (&str, usize), b: (&str, usize)) -> (r: bool)
    ensures
        r == count_before(count_view(a), count_view(b)),
{
    a.1 > b.1 || (a.1 == b.1 && str_lt(a.0, b.0))
}

/// Each tag with how many posts carry it: most used first, ties by name.
pub fn tag_counts(posts: &[Post]) -> (r: Vec<(&str, usize)>)
    requires
        all_tags(posts@).len() <= usize::MAX,
    ensures
        forall|i: int| 0 <= i < r@.len() ==> (#[trigger] r@[i]).1 == count_in(all_tags(posts@), r@[i].0@),
        forall|t: Seq<char>| all_tags(posts@).contains(t) <==> exists|i: int| 0 <= i < r@.len() && (#[trigger] r@[i]).0@ == t,
        forall|i: int, j: int| 0 <= i < j < r@.len() ==> count_before(count_view(#[trigger] r@[i]), count_view(#[trigger] r@[j])),
{
    let ghost all = all_tags(posts@);
    let mut counts: Vec<(&str, usize)> = Vec::new();
    let mut i: usize = 0;
    proof { assert(posts@.take(0) =~= seq![]); }
    while i < posts.len()
        invariant
            i <= posts@.len(),
            all == all_tags(posts@),
            all.len() <= usize::MAX,
            forall|k: int| 0 <= k < counts@.len() ==> (#[trigger] counts@[k]).1 == count_in(all_tags(posts@.take(i as int)), counts@[k].0@),
            forall|t: Seq<char>| #![trigger all_tags(posts@.take(i as int)).contains(t)] #![trigger has_name(counts@, counts@.len() as int, t)]
                all_tags(posts@.take(i as int)).contains(t) <==> has_name(counts@, counts@.len() as int, t),
            forall|k1: int, k2: int| 0 <= k1 < k2 < counts@.len() ==> (#[trigger] counts@[k1]).0@ != (#[trigger] counts@[k2]).0@,
        decreases posts@.len() - i,
    {
        let tags = &posts[i].tags;
        let ghost before_i = all_tags(posts@.take(i as int));
        proof {
            lemma_all_tags_step(posts@, i as int);
            lemma_all_tags_grow(posts@, i + 1, posts@.len() as int);
            assert(posts@.take(posts@.len() as int) =~= posts@);
            assert(strings_view(tags@).take(0) =~= seq![]);
            assert(before_i + strings_view(tags@).take(0) =~= before_i);
        }
        let mut j: usize = 0;
        while j < tags.len()
            invariant
                i < posts@.len(),
                tags@ == posts@[i as int].tags@,
                j <= tags@.len(),
                before_i == all_tags(posts@.take(i as int)),
                before_i.len() + tags@.len() <= usize::MAX,
                forall|k: int| 0 <= k < counts@.len() ==> (#[trigger] counts@[k]).1 == count_in(before_i + strings_view(tags@).take(j as int), counts@[k].0@),
                forall|t: Seq<char>| #![trigger (before_i + strings_view(tags@).take(j as int)).contains(t)] #![trigger has_name(counts@, counts@.len() as int, t)]
                    (before_i + strings_view(tags@).take(j as int)).contains(t) <==> has_name(counts@, counts@.len() as int, t),
                forall|k1: int, k2: int| 0 <= k1 < k2 < counts@.len() ==> (#[trigger] counts@[k1]).0@ != (#[trigger] counts@[k2]).0@,
            decreases tags@.len() - j,
        {
            let t: &str = tags[j].as_str();
            let ghost seen = before_i + strings_view(tags@).take(j as int);
            let ghost seen2 = before_i + strings_view(tags@).take(j + 1);
            proof {
                assert(seen2 =~= seen.push(t@));
                assert forall|x: Seq<char>| #[trigger] count_in(seen2, x) == count_in(seen, x) + if t@ == x { 1nat } else { 0nat } by {
                    lemma_count_push(seen, t@, x);
                }
            }
            let ghost oc = counts@;
            let mut k: usize = 0;
            while k < counts.len() && !str_eq(counts[k].0, t)
                invariant
                    k <= counts@.len(),
                    forall|m: int| 0 <= m < k ==> (#[trigger] counts@[m]).0@ != t@,
                decreases counts@.len() - k,
            {
                k += 1;
            }
            if k < counts.len() {
                let (name, c) = counts[k];
                proof {
                    lemma_count_bound(seen, t@);
                    assert(seen.len() < before_i.len() + tags@.len());
                    assert(has_name(oc, oc.len() as int, t@));
                }
                counts.set(k, (name, c + 1));
                proof {
                    assert forall|m: int| 0 <= m < counts@.len() implies (#[trigger] counts@[m]).0@ == oc[m].0@ by {}
                    assert forall|x: Seq<char>| has_name(counts@, counts@.len() as int, x) == has_name(oc, oc.len() as int, x) by {
                        if has_name(oc, oc.len() as int, x) {
                            let m = choose|m: int| 0 <= m < oc.len() && (#[trigger] oc[m]).0@ == x;
                            assert(counts@[m].0@ == x);
                        }
                    }
                }
            } else {
                counts.push((t, 1));
                proof {
                    if seen.contains(t@) {
                        assert(has_name(oc, oc.len() as int, t@));
                        let w = choose|w: int| 0 <= w < oc.len() && (#[trigger] oc[w]).0@ == t@;
                        assert(oc[w].0@ == t@);
                    }
                    if count_in(seen, t@) != 0 {
                        lemma_count_nonzero(seen, t@);
                    }
                    assert(counts@[oc.len() as int].0@ == t@);
                    assert forall|x: Seq<char>| has_name(counts@, counts@.len() as int, x) == (has_name(oc, oc.len() as int, x) || x == t@) by {
                        if has_name(oc, oc.len() as int, x) {
                            let m = choose|m: int| 0 <= m < oc.len() && (#[trigger] oc[m]).0@ == x;
                            assert(counts@[m].0@ == x);
                        }
                        if has_name(counts@, counts@.len() as int, x) {
                            let m = choose|m: int| 0 <= m < counts@.len() && (#[trigger] counts@[m]).0@ == x;
                            if m < oc.len() {
                                assert(oc[m].0@ == x);
                            }
                        }
                    }
                }
            }
            proof {
                assert forall|x: Seq<char>| seen2.contains(x) <==> (seen.contains(x) || x == t@) by {
                    if seen2.contains(x) {
                        let w = choose|w: int| 0 <= w < seen2.len() && seen2[w] == x;
                        if w < seen.len() {
                            assert(seen[w] == x);
                        }
                    }
                    if seen.contains(x) {
                        let w = choose|w: int| 0 <= w < seen.len() && seen[w] == x;
                        assert(seen2[w] == x);
                    }
                    if x == t@ {
                        assert(seen2[seen2.len() - 1] == x);
                    }
                }
            }
            j += 1;
        }
        proof {
            assert(strings_view(tags@).take(tags@.len() as int) =~= strings_view(tags@));
        }
        i += 1;
    }
    proof { assert(posts@.take(posts@.len() as int) =~= posts@); }
    let mut out: Vec<(&str, usize)> = Vec::new();
    let mut i: usize = 0;
    while i < counts.len()
        invariant
            i <= counts@.len(),
            forall|k: int| 0 <= k < counts@.len() ==> (#[trigger] counts@[k]).1 == count_in(all, counts@[k].0@),
            forall|k1: int, k2: int| 0 <= k1 < k2 < counts@.len() ==> (#[trigger] counts@[k1]).0@ != (#[trigger] counts@[k2]).0@,
            forall|a: int| 0 <= a < out@.len() ==> (#[trigger] out@[a]).1 == count_in(all, out@[a].0@),
            forall|x: Seq<char>| #![trigger has_name(counts@, i as int, x)] #![trigger has_name(out@, out@.len() as int, x)]
                has_name(counts@, i as int, x) <==> has_name(out@, out@.len() as int, x),
            forall|a: int, b: int| 0 <= a < b < out@.len() ==> count_before(count_view(#[trigger] out@[a]), count_view(#[trigger] out@[b])),
        decreases counts@.len() - i,
    {
        let x = counts[i];
        let mut k: usize = 0;
        while k < out.len() && !count_first(x, out[k])
            invariant
                k <= out@.len(),
                forall|a: int| 0 <= a < k ==> !count_before(count_view(x), count_view(#[trigger] out@[a])),
            decreases out@.len() - k,
        {
            k += 1;
        }
        let ghost old_out = out@;
        proof {
            assert forall|a: int| 0 <= a < old_out.len() implies (#[trigger] old_out[a]).0@ != x.0@ by {
                assert(has_name(old_out, old_out.len() as int, old_out[a].0@));
                assert(has_name(counts@, i as int, old_out[a].0@));
                let m = choose|m: int| 0 <= m < i && (#[trigger] counts@[m]).0@ == old_out[a].0@;
                assert(counts@[m].0@ == old_out[a].0@);
            }
        }
        out.insert(k, x);
        proof {
            assert forall|a: int, b: int| 0 <= a < b < out@.len() implies count_before(count_view(#[trigger] out@[a]), count_view(#[trigger] out@[b])) by {
                if a < k && b == k {
                    lemma_count_order(count_view(old_out[a]), count_view(x), count_view(x));
                    lemma_count_order(count_view(x), count_view(old_out[a]), count_view(x));
                } else if a < k && b > k {
                    lemma_count_order(count_view(old_out[a]), count_view(x), count_view(x));
                    lemma_count_order(count_view(x), count_view(old_out[a]), count_view(x));
                    if k < old_out.len() {
                        lemma_count_order(count_view(old_out[a]), count_view(old_out[k as int]), count_view(old_out[b - 1]));
                    }
                } else if a == k && b > k {
                    if b - 1 > k {
                        lemma_count_order(count_view(x), count_view(old_out[k as int]), count_view(old_out[b - 1]));
                    }
                } else if a > k {
                    assert(out@[a] == old_out[a - 1]);
                    assert(out@[b] == old_out[b - 1]);
                }
            }
            assert forall|y: Seq<char>| #![trigger has_name(counts@, i + 1, y)] #![trigger has_name(out@, out@.len() as int, y)]
                has_name(counts@, i + 1, y) <==> has_name(out@, out@.len() as int, y) by {
                assert(has_name(counts@, i as int, y) <==> has_name(old_out, old_out.len() as int, y));
                if exists|m: int| 0 <= m < i + 1 && (#[trigger] counts@[m]).0@ == y {
                    let m = choose|m: int| 0 <= m < i + 1 && (#[trigger] counts@[m]).0@ == y;
                    if m == i {
                        assert(out@[k as int].0@ == y);
                    } else {
                        assert(counts@[m].0@ == y);
                        let a = choose|a: int| 0 <= a < old_out.len() && (#[trigger] old_out[a]).0@ == y;
                        if a < k {
                            assert(out@[a].0@ == y);
                        } else {
                            assert(out@[a + 1].0@ == y);
                        }
                    }
                }
                if exists|a: int| 0 <= a < out@.len() && (#[trigger] out@[a]).0@ == y {
                    let a = choose|a: int| 0 <= a < out@.len() && (#[trigger] out@[a]).0@ == y;
                    if a == k {
                        assert(counts@[i as int].0@ == y);
                    } else if a < k {
                        assert(old_out[a].0@ == y);
                    } else {
                        assert(old_out[a - 1].0@ == y);
                    }
                }
            }
        }
        i += 1;
    }
    proof {
        assert forall|t: Seq<char>| all.contains(t) <==> exists|a: int| 0 <= a < out@.len() && (#[trigger] out@[a]).0@ == t by {
            assert(has_name(counts@, counts@.len() as int, t) <==> has_name(out@, out@.len() as int, t));
            if all.contains(t) {
                let k = choose|k: int| 0 <= k < counts@.len() && (#[trigger] counts@[k]).0@ == t;
                assert(counts@[k].0@ == t);
            }
            if exists|a: int| 0 <= a < out@.len() && (#[trigger] out@[a]).0@ == t {
                let a = choose|a: int| 0 <= a < out@.len() && (#[trigger] out@[a]).0@ == t;
                assert(out@[a].0@ == t);
                let k = choose|k: int| 0 <= k < counts@.len() && (#[trigger] counts@[k]).0@ == t;
                assert(counts@[k].0@ == t);
            }
        }
    }
    out
}

proof fn lemma_count_nonzero(s: Seq<Seq<char>>, t: Seq<char>)
    requires
        count_in(s, t) != 0,
    ensures
        s.contains(t),
    decreases s.len(),
{
    if s.len() > 0 {
        if s.last() == t {
            assert(s[s.len() - 1] == t);
        } else {
            lemma_count_nonzero(s.drop_last(), t);
            let w = choose|w: int| 0 <= w < s.drop_last().len() && s.drop_last()[w] == t;
            assert(s[w] == t);
        }
    }
}

// -- Scaffolding --------------------------------------------------------------

/// A title inside double quotes: each `\\` and `"` gets a backslash.
pub open spec fn escaped_title(t: Seq<char>) -> Seq<char>
    decreases t.len(),
{
    if t.len() == 0 {
        seq![]
    } else {
        escaped_title(t.drop_last()) + if t.last() == '\\' {
            seq!['\\', '\\']
        } else if t.last() == '"' {
            seq!['\\', '"']
        } else {
            seq![t.last()]
        }
    }
}

pub open spec fn scaffold_spec(title: Seq<char>, today: Seq<char>) -> Seq<char> {
    "---\ntitle: \""@ + escaped_title(title) + "\"\npubDate: "@ + today + SCAFFOLD_TAIL@
}

/// Everything in a new post's frontmatter after its date: one list item,
/// then every optional key, commented out.
pub const SCAFFOLD_TAIL: &'static str = "\ntags:\n  - tag1\n# draft: true                 -- built by `ssg dev`, left out of the site\n# subtitle: A short italic subtitle\n# description: Used for RSS and social meta\n---\n\n";

/// A new post's file: the title always quoted (a title is prose, and
/// `Rust: a tour` unquoted is a key), dated `today`, and every optional key
/// commented out: the frontmatter parser rejects unknown ones, so this is
/// also the reference for what a post may declare.
pub fn scaffold(title: &str, today: &str) -> (r: String)
    ensures
        r@ == scaffold_spec(title@, today@),
{
    let mut out = String::new();
    push_str(&mut out, "---\ntitle: \"");
    let ghost head = out@;
    let n = title.unicode_len();
    let mut k: usize = 0;
    while k < n
        invariant
            n == title@.len(),
            k <= n,
            out@ == head + escaped_title(title@.take(k as int)),
        decreases n - k,
    {
        let c = title.get_char(k);
        if c == '\\' {
            push_char(&mut out, '\\');
            push_char(&mut out, '\\');
        } else if c == '"' {
            push_char(&mut out, '\\');
            push_char(&mut out, '"');
        } else {
            push_char(&mut out, c);
        }
        proof {
            assert(title@.take(k + 1).drop_last() =~= title@.take(k as int));
            let e = escaped_title(title@.take(k + 1));
            assert(out@ =~= head + e);
        }
        k += 1;
    }
    proof { assert(title@.take(n as int) =~= title@); }
    push_str(&mut out, "\"\npubDate: ");
    push_str(&mut out, today);
    push_str(&mut out, SCAFFOLD_TAIL);
    out
}

/// A title becomes the slug that becomes the URL: lowercase ASCII words joined
/// by `-`.
pub fn slugify(title: &str) -> (r: String)
    ensures
        r@ == slug_scan(title@, title@.len() as int).0,
{
    let t = chars_of(title);
    let mut out = String::new();
    let mut pending = false;
    let mut k: usize = 0;
    while k < t.len()
        invariant
            k <= t@.len(),
            t@ == title@,
            (out@, pending) == slug_scan(t@, k as int),
        decreases t@.len() - k,
    {
        let c = t[k];
        if !alnum(c) {
            pending = out.as_str().unicode_len() > 0;
        } else {
            if pending {
                push_char(&mut out, '-');
            }
            push_char(&mut out, to_lower(c));
            pending = false;
        }
        k += 1;
    }
    out
}

// -- A scaffold parses back --------------------------------------------------

proof fn lemma_find_char_at(s: Seq<char>, i: int, end: int, c: char, k: int)
    requires
        0 <= i <= k < end <= s.len(),
        s[k] == c,
        forall|j: int| i <= j < k ==> s[j] != c,
    ensures
        find_char_spec(s, i, end, c) == Some(k),
    decreases k - i,
{
    if i < k {
        lemma_find_char_at(s, i + 1, end, c, k);
    }
}

proof fn lemma_escaped_no_newline(t: Seq<char>)
    requires
        forall|j: int| 0 <= j < t.len() ==> t[j] != '\n',
    ensures
        forall|j: int| 0 <= j < escaped_title(t).len() ==> escaped_title(t)[j] != '\n',
    decreases t.len(),
{
    if t.len() > 0 {
        lemma_escaped_no_newline(t.drop_last());
        let e = escaped_title(t.drop_last());
        assert(t[t.len() - 1] != '\n');
    }
}

proof fn lemma_unesc_escaped(s: Seq<char>, p: int, t: Seq<char>)
    requires
        0 <= p,
        p + escaped_title(t).len() <= s.len(),
        s.subrange(p, p + escaped_title(t).len()) == escaped_title(t),
    ensures
        unesc_scan(s, p, p + escaped_title(t).len()) == (t, false),
    decreases t.len(),
{
    let e = escaped_title(t);
    if t.len() == 0 {
        assert(t =~= Seq::<char>::empty());
    } else {
        let e0 = escaped_title(t.drop_last());
        let n = e0.len() as int;
        let c = t.last();
        assert(s.subrange(p, p + n) =~= e0) by {
            assert forall|j: int| 0 <= j < n implies s.subrange(p, p + n)[j] == e0[j] by {
                assert(s.subrange(p, p + e.len())[j] == e[j]);
            }
        }
        lemma_unesc_escaped(s, p, t.drop_last());
        assert(s[p + n] == e[n]);
        if c == '\\' || c == '"' {
            assert(s[p + n + 1] == e[n + 1]);
            assert(e[n] == '\\');
            assert(e[n + 1] == c);
            assert(unesc_scan(s, p, p + n + 1) == (t.drop_last(), true));
            assert(t.drop_last().push(c) =~= t);
        } else {
            assert(e[n] == c);
            assert(t.drop_last().push(c) =~= t);
        }
    }
}

/// The fields a scaffold declares.
pub open spec fn scaffold_fields(title: Seq<char>, today: Seq<char>) -> Seq<FrontField> {
    seq![
        ("title"@, FrontValue::Scalar(title)),
        ("pubDate"@, FrontValue::Scalar(today)),
        ("tags"@, FrontValue::List(seq!["tag1"@])),
    ]
}

/// What a date written as `today` must look like: digits and dashes.
pub open spec fn date_like(today: Seq<char>) -> bool {
    today.len() > 0 && forall|j: int| 0 <= j < today.len() ==> (crate::text::is_ascii_digit(
        #[trigger] today[j],
    ) || today[j] == '-')
}

proof fn lemma_scaffold_text(title: Seq<char>, today: Seq<char>)
    ensures
        ({
            let e = escaped_title(title);
            let s = scaffold_spec(title, today);
            let b = 12 + e.len() + 11 + today.len();
            &&& s.len() == b + 175
            &&& forall|j: int| 0 <= j < 12 ==> s[j] == "---\ntitle: \""@[j]
            &&& forall|j: int| 0 <= j < e.len() ==> s[12 + j] == e[j]
            &&& forall|j: int| 0 <= j < 11 ==> s[12 + e.len() + j] == "\"\npubDate: "@[j]
            &&& forall|j: int| 0 <= j < today.len() ==> s[12 + e.len() + 11 + j] == today[j]
            &&& forall|j: int| 0 <= j < 175 ==> s[b + j] == SCAFFOLD_TAIL@[j]
        }),
{
    reveal_strlit("---\ntitle: \"");
    reveal_strlit("\"\npubDate: ");
    reveal_strlit("\ntags:\n  - tag1\n# draft: true                 -- built by `ssg dev`, left out of the site\n# subtitle: A short italic subtitle\n# description: Used for RSS and social meta\n---\n\n");
}

proof fn lemma_not_fence(s: Seq<char>, p: int)
    requires
        0 <= p,
        p + 3 <= s.len(),
        s[p] != '-',
    ensures
        !(s.subrange(p, p + 3) == "---"@),
{
    reveal_strlit("---");
    assert(s.subrange(p, p + 3)[0] != "---"@[0]);
}

proof fn lemma_scaffold_split(title: Seq<char>, today: Seq<char>)
    requires
        forall|j: int| 0 <= j < title.len() ==> title[j] != '\n',
        date_like(today),
    ensures
        ({
            let b: int = (12 + escaped_title(title).len() + 11 + today.len()) as int;
            split_spec(scaffold_spec(title, today)) == Ok::<(int, int, int), Seq<char>>((4, b + 170, b + 175))
        }),
{
    let e = escaped_title(title);
    let s = scaffold_spec(title, today);
    let n = e.len() as int;
    let b: int = 12 + n + 11 + today.len() as int;
    let len = s.len() as int;
    let tail = SCAFFOLD_TAIL@;
    lemma_scaffold_text(title, today);
    lemma_escaped_no_newline(title);
    reveal_strlit("---\ntitle: \"");
    reveal_strlit("\"\npubDate: ");
    reveal_strlit("\ntags:\n  - tag1\n# draft: true                 -- built by `ssg dev`, left out of the site\n# subtitle: A short italic subtitle\n# description: Used for RSS and social meta\n---\n\n");
    reveal_strlit("---\n");
    reveal_strlit("---");
    assert(s.subrange(0, 4) =~= "---\n"@);
    assert(open_fence(s) == Some(4int));
    // The title line.
    assert forall|j: int| 4 <= j < 12 + n + 1 implies s[j] != '\n' by {
        if j < 12 {
        } else if j < 12 + n {
            assert(s[12 + (j - 12)] == e[j - 12]);
        } else {
            assert(s[12 + n + 0] == "\"\npubDate: "@[0]);
        }
    }
    assert(s[12 + n + 1] == "\"\npubDate: "@[1]);
    lemma_find_char_at(s, 4, len, '\n', 12 + n + 1);
    lemma_not_fence(s, 4);
    let p2 = 12 + n + 2;
    // The date line.
    assert forall|j: int| p2 <= j < b implies s[j] != '\n' by {
        if j < 12 + n + 11 {
            assert(s[12 + n + (j - 12 - n)] == "\"\npubDate: "@[j - 12 - n]);
        } else {
            assert(s[12 + n + 11 + (j - 12 - n - 11)] == today[j - 12 - n - 11]);
        }
    }
    assert(s[b + 0] == tail[0]);
    lemma_find_char_at(s, p2, len, '\n', b);
    assert(s[p2] == "\"\npubDate: "@[2]);
    lemma_not_fence(s, p2);
    // The tail's lines.
    assert forall|j: int| b + 1 <= j < b + 6 implies s[j] != '\n' by { assert(s[b + (j - b)] == tail[j - b]); }
    assert(s[b + 6] == tail[6]);
    lemma_find_char_at(s, b + 1, len, '\n', b + 6);
    assert(s[b + 1] == tail[1]);
    lemma_not_fence(s, b + 1);
    assert forall|j: int| b + 7 <= j < b + 15 implies s[j] != '\n' by { assert(s[b + (j - b)] == tail[j - b]); }
    assert(s[b + 15] == tail[15]);
    lemma_find_char_at(s, b + 7, len, '\n', b + 15);
    assert(s[b + 7] == tail[7]);
    lemma_not_fence(s, b + 7);
    assert forall|j: int| b + 16 <= j < b + 89 implies s[j] != '\n' by { assert(s[b + (j - b)] == tail[j - b]); }
    assert(s[b + 89] == tail[89]);
    lemma_find_char_at(s, b + 16, len, '\n', b + 89);
    assert(s[b + 16] == tail[16]);
    lemma_not_fence(s, b + 16);
    assert forall|j: int| b + 90 <= j < b + 125 implies s[j] != '\n' by { assert(s[b + (j - b)] == tail[j - b]); }
    assert(s[b + 125] == tail[125]);
    lemma_find_char_at(s, b + 90, len, '\n', b + 125);
    assert(s[b + 90] == tail[90]);
    lemma_not_fence(s, b + 90);
    assert forall|j: int| b + 126 <= j < b + 169 implies s[j] != '\n' by { assert(s[b + (j - b)] == tail[j - b]); }
    assert(s[b + 169] == tail[169]);
    lemma_find_char_at(s, b + 126, len, '\n', b + 169);
    assert(s[b + 126] == tail[126]);
    lemma_not_fence(s, b + 126);
    // The closing fence.
    assert forall|j: int| b + 170 <= j < b + 173 implies s[j] != '\n' by { assert(s[b + (j - b)] == tail[j - b]); }
    assert(s[b + 173] == tail[173]);
    lemma_find_char_at(s, b + 170, len, '\n', b + 173);
    assert(s[b + 172] == tail[172]);
    assert(s[b + 171] == tail[171]);
    assert(s[b + 170] == tail[170]);
    assert(trim_end_pos(s, b + 170, b + 173) == b + 173);
    assert(trim_end_pos(s, b + 170, b + 174) == b + 173);
    assert(s.subrange(b + 170, b + 173) =~= "---"@);
    assert(next_line(s, b + 170) == b + 174);
    assert(close_fence(s, b + 170) == Some(b + 170));
    assert(close_fence(s, b + 126) == Some(b + 170));
    assert(close_fence(s, b + 90) == Some(b + 170));
    assert(close_fence(s, b + 16) == Some(b + 170));
    assert(close_fence(s, b + 7) == Some(b + 170));
    assert(close_fence(s, b + 1) == Some(b + 170));
    assert(close_fence(s, p2) == Some(b + 170));
    assert(close_fence(s, 4) == Some(b + 170));
    // The body: nothing after the blank line.
    assert(s[b + 174] == tail[174]);
    assert(skip_newlines(s, b + 175) == b + 175);
    assert(skip_newlines(s, b + 174) == b + 175);
}

#[verifier::spinoff_prover]
#[verifier::rlimit(80)]
proof fn lemma_front_title(title: Seq<char>, today: Seq<char>)
    requires
        forall|j: int| 0 <= j < title.len() ==> title[j] != '\n',
        date_like(today),
    ensures
        front_from(scaffold_spec(title, today), 4, (12 + escaped_title(title).len() + 11 + today.len()) as int + 170, strs_view(KEYS@), seq![]) == front_from(
            scaffold_spec(title, today),
            (12 + escaped_title(title).len() + 2) as int,
            (12 + escaped_title(title).len() + 11 + today.len()) as int + 170,
            strs_view(KEYS@),
            seq![("title"@, FrontValue::Scalar(title))],
        ),
{
    let e = escaped_title(title);
    let s = scaffold_spec(title, today);
    let n = e.len() as int;
    let b: int = 12 + n + 11 + today.len() as int;
    let end = b + 170;
    let tail = SCAFFOLD_TAIL@;
    let al = strs_view(KEYS@);
    lemma_scaffold_text(title, today);
    lemma_escaped_no_newline(title);
    reveal_strlit("---\ntitle: \"");
    reveal_strlit("\"\npubDate: ");
    reveal_strlit("\ntags:\n  - tag1\n# draft: true                 -- built by `ssg dev`, left out of the site\n# subtitle: A short italic subtitle\n# description: Used for RSS and social meta\n---\n\n");
    reveal_strlit("title");
    reveal_strlit("pubDate");
    reveal_strlit("tags");
    reveal_strlit("tag1");
    assert(al[0] == "title"@);
    // `title: "..."`
    assert forall|j: int| 4 <= j < 12 + n + 1 implies s[j] != '\n' by {
        if j < 12 {
        } else if j < 12 + n {
            assert(s[12 + (j - 12)] == e[j - 12]);
        } else {
            assert(s[12 + n + 0] == "\"\npubDate: "@[0]);
        }
    }
    assert(s[12 + n + 1] == "\"\npubDate: "@[1]);
    lemma_find_char_at(s, 4, end, '\n', 12 + n + 1);
    let e1 = 12 + n + 1;
    assert(s[e1 - 1] == '"');
    assert(line_text_end(s, 4, end) == e1);
    assert(trim_start_pos(s, 4, e1) == 4);
    lemma_find_char_at(s, 4, e1, ':', 9);
    assert(trim_start_pos(s, 4, 9) == 4);
    assert(trim_end_pos(s, 4, 9) == 9);
    assert(s.subrange(4, 9) =~= "title"@);
    assert(al.contains("title"@));
    assert(trim_start_pos(s, 11, e1) == 11);
    assert(trim_start_pos(s, 10, e1) == 11);
    assert(trim_end_pos(s, 11, e1) == e1);
    assert(s.subrange(12, 12 + n) =~= e) by {
        assert forall|j: int| 0 <= j < n implies s.subrange(12, 12 + n)[j] == e[j] by {
            assert(s[12 + j] == e[j]);
        }
    }
    lemma_unesc_escaped(s, 12, title);
    assert(unquote_at(s, 11, e1) == title);
    assert(rest_value(s, 10, e1) == FrontValue::Scalar(title));
    let fs1: Seq<FrontField> = seq![("title"@, FrontValue::Scalar(title))];
    assert(Seq::<FrontField>::empty().push(("title"@, FrontValue::Scalar(title))) =~= fs1);
    assert(!has_field(Seq::<FrontField>::empty(), "title"@));
    assert(front_from(s, 4, end, al, seq![]) == front_from(s, e1 + 1, end, al, fs1));

}

#[verifier::spinoff_prover]
#[verifier::rlimit(80)]
proof fn lemma_front_date(title: Seq<char>, today: Seq<char>)
    requires
        forall|j: int| 0 <= j < title.len() ==> title[j] != '\n',
        date_like(today),
    ensures
        front_from(scaffold_spec(title, today), (12 + escaped_title(title).len() + 2) as int, (12 + escaped_title(title).len() + 11 + today.len()) as int + 170, strs_view(KEYS@), seq![("title"@, FrontValue::Scalar(title))]) == front_from(
            scaffold_spec(title, today),
            (12 + escaped_title(title).len() + 11 + today.len()) as int + 1,
            (12 + escaped_title(title).len() + 11 + today.len()) as int + 170,
            strs_view(KEYS@),
            seq![("title"@, FrontValue::Scalar(title))].push(("pubDate"@, FrontValue::Scalar(today))),
        ),
{
    let e = escaped_title(title);
    let s = scaffold_spec(title, today);
    let n = e.len() as int;
    let b: int = 12 + n + 11 + today.len() as int;
    let end = b + 170;
    let tail = SCAFFOLD_TAIL@;
    let al = strs_view(KEYS@);
    lemma_scaffold_text(title, today);
    lemma_escaped_no_newline(title);
    reveal_strlit("---\ntitle: \"");
    reveal_strlit("\"\npubDate: ");
    reveal_strlit("\ntags:\n  - tag1\n# draft: true                 -- built by `ssg dev`, left out of the site\n# subtitle: A short italic subtitle\n# description: Used for RSS and social meta\n---\n\n");
    reveal_strlit("title");
    reveal_strlit("pubDate");
    reveal_strlit("tags");
    reveal_strlit("tag1");
    assert(al[4] == "pubDate"@);
    let fs1: Seq<FrontField> = seq![("title"@, FrontValue::Scalar(title))];
    let e1 = 12 + n + 1;
    // `pubDate: ...`
    let p2 = 12 + n + 2;
    assert forall|j: int| p2 <= j < b implies s[j] != '\n' by {
        if j < 12 + n + 11 {
            assert(s[12 + n + (j - 12 - n)] == "\"\npubDate: "@[j - 12 - n]);
        } else {
            assert(s[12 + n + 11 + (j - 12 - n - 11)] == today[j - 12 - n - 11]);
        }
    }
    assert(s[b + 0] == tail[0]);
    lemma_find_char_at(s, p2, end, '\n', b);
    assert(s[b - 1] == today[today.len() - 1]);
    assert(line_text_end(s, p2, end) == b);
    assert(s[p2] == "\"\npubDate: "@[2]);
    assert(trim_start_pos(s, p2, b) == p2);
    assert forall|j: int| p2 <= j < p2 + 7 implies s[j] != ':' by {
        assert(s[12 + n + (j - 12 - n)] == "\"\npubDate: "@[j - 12 - n]);
    }
    assert(s[p2 + 7] == "\"\npubDate: "@[9]);
    lemma_find_char_at(s, p2, b, ':', p2 + 7);
    assert(s[p2 + 6] == "\"\npubDate: "@[8]);
    assert(trim_start_pos(s, p2, p2 + 7) == p2);
    assert(trim_end_pos(s, p2, p2 + 7) == p2 + 7);
    assert(s.subrange(p2, p2 + 7) =~= "pubDate"@) by {
        assert forall|j: int| 0 <= j < 7 implies s.subrange(p2, p2 + 7)[j] == "pubDate"@[j] by {
            assert(s[12 + n + (j + 2)] == "\"\npubDate: "@[j + 2]);
        }
    }
    assert(al.contains("pubDate"@));
    assert(fs1[0].0 != "pubDate"@) by { assert(fs1[0].0.len() != "pubDate"@.len()); }
    assert(!has_field(fs1, "pubDate"@));
    let t0 = 12 + n + 11;
    assert(s[p2 + 8] == "\"\npubDate: "@[10]);
    assert(s[t0] == today[0]);
    assert(trim_start_pos(s, t0, b) == t0);
    assert(trim_start_pos(s, p2 + 8, b) == t0);
    assert(trim_end_pos(s, t0, b) == b);
    assert(s.subrange(t0, b) =~= today) by {
        assert forall|j: int| 0 <= j < today.len() implies s.subrange(t0, b)[j] == today[j] by {
            assert(s[12 + n + 11 + j] == today[j]);
        }
    }
    assert(unquote_at(s, t0, b) == today);
    assert(rest_value(s, p2 + 8, b) == FrontValue::Scalar(today));
    let fs2 = fs1.push(("pubDate"@, FrontValue::Scalar(today)));
    assert(front_from(s, e1 + 1, end, al, fs1) == front_from(s, b + 1, end, al, fs2));

}

#[verifier::spinoff_prover]
#[verifier::rlimit(80)]
proof fn lemma_front_tags(title: Seq<char>, today: Seq<char>)
    requires
        forall|j: int| 0 <= j < title.len() ==> title[j] != '\n',
        date_like(today),
    ensures
        front_from(scaffold_spec(title, today), (12 + escaped_title(title).len() + 11 + today.len()) as int + 1, (12 + escaped_title(title).len() + 11 + today.len()) as int + 170, strs_view(KEYS@), seq![("title"@, FrontValue::Scalar(title))].push(("pubDate"@, FrontValue::Scalar(today)))) == front_from(
            scaffold_spec(title, today),
            (12 + escaped_title(title).len() + 11 + today.len()) as int + 7,
            (12 + escaped_title(title).len() + 11 + today.len()) as int + 170,
            strs_view(KEYS@),
            seq![("title"@, FrontValue::Scalar(title))].push(("pubDate"@, FrontValue::Scalar(today))).push(("tags"@, FrontValue::List(seq![]))),
        ),
{
    let e = escaped_title(title);
    let s = scaffold_spec(title, today);
    let n = e.len() as int;
    let b: int = 12 + n + 11 + today.len() as int;
    let end = b + 170;
    let tail = SCAFFOLD_TAIL@;
    let al = strs_view(KEYS@);
    lemma_scaffold_text(title, today);
    lemma_escaped_no_newline(title);
    reveal_strlit("---\ntitle: \"");
    reveal_strlit("\"\npubDate: ");
    reveal_strlit("\ntags:\n  - tag1\n# draft: true                 -- built by `ssg dev`, left out of the site\n# subtitle: A short italic subtitle\n# description: Used for RSS and social meta\n---\n\n");
    reveal_strlit("title");
    reveal_strlit("pubDate");
    reveal_strlit("tags");
    reveal_strlit("tag1");
    assert(al[5] == "tags"@);
    let fs2: Seq<FrontField> = seq![("title"@, FrontValue::Scalar(title))].push(("pubDate"@, FrontValue::Scalar(today)));
    // `tags:`
    assert forall|j: int| b + 1 <= j < b + 6 implies s[j] != '\n' by { assert(s[b + (j - b)] == tail[j - b]); }
    assert(s[b + 6] == tail[6]);
    lemma_find_char_at(s, b + 1, end, '\n', b + 6);
    assert(s[b + 5] == tail[5]);
    assert(line_text_end(s, b + 1, end) == b + 6);
    assert(s[b + 1] == tail[1]);
    assert(trim_start_pos(s, b + 1, b + 6) == b + 1);
    assert forall|j: int| b + 1 <= j < b + 5 implies s[j] != ':' by { assert(s[b + (j - b)] == tail[j - b]); }
    lemma_find_char_at(s, b + 1, b + 6, ':', b + 5);
    assert(s[b + 4] == tail[4]);
    assert(trim_start_pos(s, b + 1, b + 5) == b + 1);
    assert(trim_end_pos(s, b + 1, b + 5) == b + 5);
    assert(s.subrange(b + 1, b + 5) =~= "tags"@) by {
        assert forall|j: int| 0 <= j < 4 implies s.subrange(b + 1, b + 5)[j] == "tags"@[j] by {
            assert(s[b + (j + 1)] == tail[j + 1]);
        }
    }
    assert(al.contains("tags"@));
    assert(fs2[0].0 != "tags"@) by { assert(fs2[0].0.len() != "tags"@.len()); }
    assert(fs2[1].0 != "tags"@) by { assert(fs2[1].0.len() != "tags"@.len()); }
    assert(!has_field(fs2, "tags"@));
    assert(trim_start_pos(s, b + 6, b + 6) == b + 6);
    assert(trim_end_pos(s, b + 6, b + 6) == b + 6);
    assert(rest_value(s, b + 6, b + 6) == FrontValue::List(seq![]));
    let fs3 = fs2.push(("tags"@, FrontValue::List(seq![])));
    assert(front_from(s, b + 1, end, al, fs2) == front_from(s, b + 7, end, al, fs3));

}

#[verifier::spinoff_prover]
#[verifier::rlimit(80)]
proof fn lemma_front_item(title: Seq<char>, today: Seq<char>)
    requires
        forall|j: int| 0 <= j < title.len() ==> title[j] != '\n',
        date_like(today),
    ensures
        front_from(scaffold_spec(title, today), (12 + escaped_title(title).len() + 11 + today.len()) as int + 7, (12 + escaped_title(title).len() + 11 + today.len()) as int + 170, strs_view(KEYS@), seq![("title"@, FrontValue::Scalar(title))].push(("pubDate"@, FrontValue::Scalar(today))).push(("tags"@, FrontValue::List(seq![])))) == front_from(
            scaffold_spec(title, today),
            (12 + escaped_title(title).len() + 11 + today.len()) as int + 16,
            (12 + escaped_title(title).len() + 11 + today.len()) as int + 170,
            strs_view(KEYS@),
            scaffold_fields(title, today),
        ),
{
    let e = escaped_title(title);
    let s = scaffold_spec(title, today);
    let n = e.len() as int;
    let b: int = 12 + n + 11 + today.len() as int;
    let end = b + 170;
    let tail = SCAFFOLD_TAIL@;
    let al = strs_view(KEYS@);
    lemma_scaffold_text(title, today);
    lemma_escaped_no_newline(title);
    reveal_strlit("---\ntitle: \"");
    reveal_strlit("\"\npubDate: ");
    reveal_strlit("\ntags:\n  - tag1\n# draft: true                 -- built by `ssg dev`, left out of the site\n# subtitle: A short italic subtitle\n# description: Used for RSS and social meta\n---\n\n");
    reveal_strlit("title");
    reveal_strlit("pubDate");
    reveal_strlit("tags");
    reveal_strlit("tag1");
    let fs3: Seq<FrontField> = seq![("title"@, FrontValue::Scalar(title))].push(("pubDate"@, FrontValue::Scalar(today))).push(("tags"@, FrontValue::List(seq![])));
    // `  - tag1`
    assert forall|j: int| b + 7 <= j < b + 15 implies s[j] != '\n' by { assert(s[b + (j - b)] == tail[j - b]); }
    assert(s[b + 15] == tail[15]);
    lemma_find_char_at(s, b + 7, end, '\n', b + 15);
    assert(s[b + 14] == tail[14]);
    assert(line_text_end(s, b + 7, end) == b + 15);
    assert(s[b + 7] == tail[7]);
    assert(s[b + 8] == tail[8]);
    assert(s[b + 9] == tail[9]);
    assert(s[b + 10] == tail[10]);
    assert(s[b + 11] == tail[11]);
    assert(trim_start_pos(s, b + 9, b + 15) == b + 9);
    assert(trim_start_pos(s, b + 8, b + 15) == b + 9);
    assert(trim_start_pos(s, b + 7, b + 15) == b + 9);
    assert(trim_start_pos(s, b + 11, b + 15) == b + 11);
    assert(trim_end_pos(s, b + 11, b + 15) == b + 15);
    assert(s.subrange(b + 11, b + 15) =~= "tag1"@) by {
        assert forall|j: int| 0 <= j < 4 implies s.subrange(b + 11, b + 15)[j] == "tag1"@[j] by {
            assert(s[b + (j + 11)] == tail[j + 11]);
        }
    }
    assert(unquote_at(s, b + 11, b + 15) == "tag1"@);
    let fs4 = fs3.update(2, ("tags"@, FrontValue::List(seq!["tag1"@])));
    assert(seq![].push("tag1"@) =~= seq!["tag1"@]);
    assert(front_from(s, b + 7, end, al, fs3) == front_from(s, b + 16, end, al, fs4));
    assert(fs4 =~= scaffold_fields(title, today));

}

#[verifier::spinoff_prover]
#[verifier::rlimit(80)]
proof fn lemma_front_comments(title: Seq<char>, today: Seq<char>, fs4: Seq<FrontField>)
    requires
        forall|j: int| 0 <= j < title.len() ==> title[j] != '\n',
        date_like(today),
    ensures
        front_from(scaffold_spec(title, today), (12 + escaped_title(title).len() + 11 + today.len()) as int + 16, (12 + escaped_title(title).len() + 11 + today.len()) as int + 170, strs_view(KEYS@), fs4) == Ok::<Seq<FrontField>, Seq<char>>(fs4),
{
    let e = escaped_title(title);
    let s = scaffold_spec(title, today);
    let n = e.len() as int;
    let b: int = 12 + n + 11 + today.len() as int;
    let end = b + 170;
    let tail = SCAFFOLD_TAIL@;
    let al = strs_view(KEYS@);
    lemma_scaffold_text(title, today);
    lemma_escaped_no_newline(title);
    reveal_strlit("---\ntitle: \"");
    reveal_strlit("\"\npubDate: ");
    reveal_strlit("\ntags:\n  - tag1\n# draft: true                 -- built by `ssg dev`, left out of the site\n# subtitle: A short italic subtitle\n# description: Used for RSS and social meta\n---\n\n");
    reveal_strlit("title");
    reveal_strlit("pubDate");
    reveal_strlit("tags");
    reveal_strlit("tag1");
    // The three comments.
    assert forall|j: int| b + 16 <= j < b + 89 implies s[j] != '\n' by { assert(s[b + (j - b)] == tail[j - b]); }
    assert(s[b + 89] == tail[89]);
    lemma_find_char_at(s, b + 16, end, '\n', b + 89);
    assert(s[b + 88] == tail[88]);
    assert(s[b + 16] == tail[16]);
    assert(trim_start_pos(s, b + 16, b + 89) == b + 16);
    assert(front_from(s, b + 16, end, al, fs4) == front_from(s, b + 90, end, al, fs4));
    assert forall|j: int| b + 90 <= j < b + 125 implies s[j] != '\n' by { assert(s[b + (j - b)] == tail[j - b]); }
    assert(s[b + 125] == tail[125]);
    lemma_find_char_at(s, b + 90, end, '\n', b + 125);
    assert(s[b + 124] == tail[124]);
    assert(s[b + 90] == tail[90]);
    assert(trim_start_pos(s, b + 90, b + 125) == b + 90);
    assert(front_from(s, b + 90, end, al, fs4) == front_from(s, b + 126, end, al, fs4));
    assert forall|j: int| b + 126 <= j < b + 169 implies s[j] != '\n' by { assert(s[b + (j - b)] == tail[j - b]); }
    assert(s[b + 169] == tail[169]);
    lemma_find_char_at(s, b + 126, end, '\n', b + 169);
    assert(s[b + 168] == tail[168]);
    assert(s[b + 126] == tail[126]);
    assert(trim_start_pos(s, b + 126, b + 169) == b + 126);
    assert(front_from(s, b + 126, end, al, fs4) == front_from(s, b + 170, end, al, fs4));
    assert(front_from(s, b + 170, end, al, fs4) == Ok::<Seq<FrontField>, Seq<char>>(fs4));
}

proof fn lemma_scaffold_front(title: Seq<char>, today: Seq<char>)
    requires
        forall|j: int| 0 <= j < title.len() ==> title[j] != '\n',
        date_like(today),
    ensures
        front_from(scaffold_spec(title, today), 4, (12 + escaped_title(title).len() + 11 + today.len()) as int + 170, strs_view(KEYS@), seq![]) == Ok::<Seq<FrontField>, Seq<char>>(scaffold_fields(title, today)),
{
    lemma_front_title(title, today);
    lemma_front_date(title, today);
    lemma_front_tags(title, today);
    lemma_front_item(title, today);
    lemma_front_comments(title, today, scaffold_fields(title, today));
}

proof fn lemma_date_read_ymd(today: Seq<char>)
    requires
        ymd_text(today),
    ensures
        date_like(today),
        date_read(today) is Ok,
        ({
            let t = date_read(today)->Ok_0;
            (t.0 as int, t.1 as int, t.2 as int) == ymd_fields(today)
        }),
{
    crate::isodate::lemma_iso_text_round_trip(today);
    assert forall|j: int| 0 <= j < today.len() implies (crate::text::is_ascii_digit(#[trigger] today[j])
        || today[j] == '-') by {
        if j != 4 && j != 7 {
            assert(crate::text::is_ascii_digit(today[j]));
        }
    }
}

/// A new post's file parses back to what it was made from: its title is the
/// title given, whatever the title holds (quotes, backslashes, a colon) but a
/// line break; its date is the date it was made on, written `YYYY-MM-DD`; its
/// one tag is `tag1`; it is no draft, has no subtitle or description, and its
/// body is empty.
#[verifier::spinoff_prover]
#[verifier::rlimit(50)]
pub proof fn lemma_scaffold_parses(title: Seq<char>, today: Seq<char>, slug: Seq<char>)
    requires
        forall|j: int| 0 <= j < title.len() ==> title[j] != '\n',
        ymd_text(today),
    ensures
        ({
            parse_spec(scaffold_spec(title, today), slug) == Ok::<PostSpec, Seq<char>>(
                PostSpec {
                    slug,
                    title,
                    subtitle: None,
                    pub_date: ymd_fields(today),
                    tags: seq!["tag1"@],
                    description: None,
                    draft: false,
                    body: seq![],
                },
            )
        }),
{
    let s = scaffold_spec(title, today);
    let b: int = (12 + escaped_title(title).len() + 11 + today.len()) as int;
    lemma_date_read_ymd(today);
    lemma_scaffold_text(title, today);
    lemma_scaffold_split(title, today);
    lemma_scaffold_front(title, today);
    let fs = scaffold_fields(title, today);
    reveal_with_fuel(field_at, 4);
    reveal_strlit("title");
    reveal_strlit("pubDate");
    reveal_strlit("tags");
    reveal_strlit("draft");
    reveal_strlit("subtitle");
    reveal_strlit("description");
    assert(fs[0].0 != "tags"@ && fs[1].0 != "tags"@) by {
        assert(fs[0].0.len() != "tags"@.len());
        assert(fs[1].0.len() != "tags"@.len());
    }
    assert(field_spec(fs, "tags"@) == Some(FrontValue::List(seq!["tag1"@])));
    assert(fs[0].0 != "draft"@ && fs[1].0 != "draft"@ && fs[2].0 != "draft"@) by {
        assert(fs[0].0[0] != "draft"@[0]);
        assert(fs[1].0.len() != "draft"@.len());
        assert(fs[2].0.len() != "draft"@.len());
    }
    assert(field_spec(fs, "draft"@) is None);
    assert(fs[0].0 != "pubDate"@) by { assert(fs[0].0.len() != "pubDate"@.len()); }
    assert(field_spec(fs, "pubDate"@) == Some(FrontValue::Scalar(today)));
    assert(field_spec(fs, "title"@) == Some(FrontValue::Scalar(title)));
    assert(fs[0].0 != "subtitle"@ && fs[1].0 != "subtitle"@ && fs[2].0 != "subtitle"@) by {
        assert(fs[0].0.len() != "subtitle"@.len());
        assert(fs[1].0.len() != "subtitle"@.len());
        assert(fs[2].0.len() != "subtitle"@.len());
    }
    assert(field_spec(fs, "subtitle"@) is None);
    assert(fs[0].0 != "description"@ && fs[1].0 != "description"@ && fs[2].0 != "description"@) by {
        assert(fs[0].0.len() != "description"@.len());
        assert(fs[1].0.len() != "description"@.len());
        assert(fs[2].0.len() != "description"@.len());
    }
    assert(field_spec(fs, "description"@) is None);
    assert(s.subrange(b + 175, s.len() as int) =~= Seq::<char>::empty());
}

} // verus!
