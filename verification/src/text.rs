//! Character-level helpers shared by the parsers.
//!
//! Every parser in this crate reads its input as a sequence of `char`s, and
//! every position it reports is an index into that sequence.
use vstd::prelude::*;

verus! {

pub open spec fn is_ascii_alpha(c: char) -> bool {
    ('a' <= c && c <= 'z') || ('A' <= c && c <= 'Z')
}

pub open spec fn is_ascii_digit(c: char) -> bool {
    '0' <= c && c <= '9'
}

pub open spec fn is_ascii_alnum(c: char) -> bool {
    is_ascii_alpha(c) || is_ascii_digit(c)
}

pub open spec fn is_ascii_hex(c: char) -> bool {
    is_ascii_digit(c) || ('a' <= c && c <= 'f') || ('A' <= c && c <= 'F')
}

pub open spec fn is_ascii_upper(c: char) -> bool {
    'A' <= c && c <= 'Z'
}

/// ASCII lower-casing; every other character is its own lower case.
pub open spec fn lower(c: char) -> char {
    if is_ascii_upper(c) { ((c as u32) + 32) as char } else { c }
}

pub fn alpha(c: char) -> (r: bool)
    ensures r == is_ascii_alpha(c),
{
    ('a' <= c && c <= 'z') || ('A' <= c && c <= 'Z')
}

pub fn digit(c: char) -> (r: bool)
    ensures r == is_ascii_digit(c),
{
    '0' <= c && c <= '9'
}

pub fn alnum(c: char) -> (r: bool)
    ensures r == is_ascii_alnum(c),
{
    alpha(c) || digit(c)
}

pub fn hex(c: char) -> (r: bool)
    ensures r == is_ascii_hex(c),
{
    digit(c) || ('a' <= c && c <= 'f') || ('A' <= c && c <= 'F')
}

pub fn upper(c: char) -> (r: bool)
    ensures r == is_ascii_upper(c),
{
    'A' <= c && c <= 'Z'
}

pub fn to_lower(c: char) -> (r: char)
    ensures r == lower(c),
{
    if 'A' <= c && c <= 'Z' {
        let b: u8 = c as u8;
        assert(b == c as u32);
        let r: char = (b + 32) as char;
        assert(r == ((c as u32) + 32) as char);
        r
    } else {
        c
    }
}

/// Two sequences equal up to ASCII case.
pub open spec fn eq_ignore_case(a: Seq<char>, b: Seq<char>) -> bool {
    a.len() == b.len() && forall|k: int| 0 <= k < a.len() ==> #[trigger] lower(a[k]) == lower(b[k])
}

/// `s[from..to]` equals `b` up to ASCII case.
pub fn range_eq_ignore_case(s: &[char], from: usize, to: usize, b: &str) -> (r: bool)
    requires
        from <= to <= s@.len(),
    ensures
        r == eq_ignore_case(s@.subrange(from as int, to as int), b@),
{
    let n = b.unicode_len();
    if to - from != n {
        return false;
    }
    let mut k: usize = 0;
    while k < n
        invariant
            from <= to <= s@.len(),
            to - from == n == b@.len(),
            k <= n,
            forall|j: int| 0 <= j < k ==> lower(s@[from + j]) == lower(b@[j]),
        decreases n - k,
    {
        if to_lower(s[from + k]) != to_lower(b.get_char(k)) {
            assert(lower(s@.subrange(from as int, to as int)[k as int]) != lower(b@[k as int]));
            return false;
        }
        k += 1;
    }
    assert forall|j: int| 0 <= j < n implies #[trigger] lower(s@.subrange(from as int, to as int)[j])
        == lower(b@[j]) by {}
    true
}

/// `pat` occurs in `s` at `i`, wholly before `end`.
pub open spec fn at_pat(s: Seq<char>, i: int, end: int, pat: Seq<char>) -> bool {
    0 <= i && i + pat.len() <= end && end <= s.len() && s.subrange(i, i + pat.len()) =~= pat
}

pub fn starts_at(s: &[char], i: usize, end: usize, pat: &str) -> (r: bool)
    requires
        i <= end <= s@.len(),
    ensures
        r == at_pat(s@, i as int, end as int, pat@),
{
    let n = pat.unicode_len();
    if n > end - i {
        return false;
    }
    let mut k: usize = 0;
    while k < n
        invariant
            i + n <= end <= s@.len(),
            n == pat@.len(),
            k <= n,
            forall|j: int| 0 <= j < k ==> s@[i + j] == pat@[j],
        decreases n - k,
    {
        if s[i + k] != pat.get_char(k) {
            assert(s@.subrange(i as int, i + n)[k as int] != pat@[k as int]);
            return false;
        }
        k += 1;
    }
    assert(s@.subrange(i as int, i + n) =~= pat@);
    true
}

/// The first position at or after `i` where `pat` occurs before `end`.
pub open spec fn find_pat(s: Seq<char>, i: int, end: int, pat: Seq<char>) -> Option<int>
    decreases end - i,
{
    if i < 0 || i + pat.len() > end || end > s.len() {
        None
    } else if at_pat(s, i, end, pat) {
        Some(i)
    } else {
        find_pat(s, i + 1, end, pat)
    }
}

pub proof fn lemma_find_pat_bounds(s: Seq<char>, i: int, end: int, pat: Seq<char>)
    ensures
        find_pat(s, i, end, pat) matches Some(k) ==> i <= k && k + pat.len() <= end
            && at_pat(s, k, end, pat),
    decreases end - i,
{
    if i < 0 || i + pat.len() > end || end > s.len() {
    } else if at_pat(s, i, end, pat) {
    } else {
        lemma_find_pat_bounds(s, i + 1, end, pat);
    }
}

pub fn find(s: &[char], i: usize, end: usize, pat: &str) -> (r: Option<usize>)
    requires
        i <= end <= s@.len(),
    ensures
        r == (match find_pat(s@, i as int, end as int, pat@) {
            Some(k) => Some(k as usize),
            None => None,
        }),
        r matches Some(k) ==> i <= k && k + pat@.len() <= end,
{
    proof { lemma_find_pat_bounds(s@, i as int, end as int, pat@); }
    let n = pat.unicode_len();
    let mut j = i;
    while j <= end && n <= end - j
        invariant
            i <= j,
            end <= s@.len(),
            n == pat@.len(),
            find_pat(s@, i as int, end as int, pat@) == find_pat(s@, j as int, end as int, pat@),
        decreases end - j,
    {
        if starts_at(s, j, end, pat) {
            return Some(j);
        }
        j += 1;
    }
    None
}

/// The first position at or after `i`, before `end`, holding `c`.
pub open spec fn find_char_spec(s: Seq<char>, i: int, end: int, c: char) -> Option<int>
    decreases end - i,
{
    if i < 0 || i >= end || end > s.len() {
        None
    } else if s[i] == c {
        Some(i)
    } else {
        find_char_spec(s, i + 1, end, c)
    }
}

pub proof fn lemma_find_char_bounds(s: Seq<char>, i: int, end: int, c: char)
    ensures
        find_char_spec(s, i, end, c) matches Some(k) ==> i <= k < end && s[k] == c
            && forall|j: int| i <= j < k ==> s[j] != c,
        find_char_spec(s, i, end, c) is None && 0 <= i && end <= s.len() ==> forall|j: int|
            i <= j < end ==> s[j] != c,
    decreases end - i,
{
    if i < 0 || i >= end || end > s.len() {
    } else if s[i] == c {
    } else {
        lemma_find_char_bounds(s, i + 1, end, c);
    }
}

pub fn find_char(s: &[char], i: usize, end: usize, c: char) -> (r: Option<usize>)
    requires
        i <= end <= s@.len(),
    ensures
        r == (match find_char_spec(s@, i as int, end as int, c) {
            Some(k) => Some(k as usize),
            None => None,
        }),
        r matches Some(k) ==> i <= k < end,
{
    proof { lemma_find_char_bounds(s@, i as int, end as int, c); }
    let mut j = i;
    while j < end
        invariant
            i <= j <= end <= s@.len(),
            find_char_spec(s@, i as int, end as int, c) == find_char_spec(s@, j as int, end as int, c),
        decreases end - j,
    {
        if s[j] == c {
            return Some(j);
        }
        j += 1;
    }
    None
}


/// HTML's ASCII whitespace (`\t \n \x0c \r` and space).
pub open spec fn is_html_space(c: char) -> bool {
    c == ' ' || c == '\t' || c == '\n' || c == '\x0c' || c == '\r'
}

/// Unicode `White_Space`, which is what `str::trim` strips.
pub open spec fn is_whitespace(c: char) -> bool {
    ('\t' <= c && c <= '\r') || c == ' ' || c == '\u{85}' || c == '\u{a0}' || c == '\u{1680}'
        || ('\u{2000}' <= c && c <= '\u{200a}') || c == '\u{2028}' || c == '\u{2029}'
        || c == '\u{202f}' || c == '\u{205f}' || c == '\u{3000}'
}

pub fn whitespace(c: char) -> (r: bool)
    ensures r == is_whitespace(c),
{
    ('\t' <= c && c <= '\r') || c == ' ' || c == '\u{85}' || c == '\u{a0}' || c == '\u{1680}'
        || ('\u{2000}' <= c && c <= '\u{200a}') || c == '\u{2028}' || c == '\u{2029}'
        || c == '\u{202f}' || c == '\u{205f}' || c == '\u{3000}'
}

pub fn html_space(c: char) -> (r: bool)
    ensures r == is_html_space(c),
{
    c == ' ' || c == '\t' || c == '\n' || c == '\x0c' || c == '\r'
}

/// The character classes that the scanners run over.
pub enum Class {
    /// HTML whitespace.
    HtmlSpace,
    /// Unicode whitespace.
    White,
    /// ASCII letters and digits.
    Alnum,
    /// ASCII digits.
    Digit,
    /// Anything that may continue an attribute name.
    AttrName,
    /// Anything that may continue a tag name as the attribute scanner sees it.
    TagName,
    /// Anything but this quote.
    NotQuote(char),
    /// ASCII hexadecimal digits.
    Hex,
    /// CSS whitespace: newlines, tab and space.
    CssWs,
    /// Anything that may continue an unquoted attribute value.
    Unquoted,
}

pub open spec fn in_class(cl: Class, c: char) -> bool {
    match cl {
        Class::HtmlSpace => is_html_space(c),
        Class::White => is_whitespace(c),
        Class::Alnum => is_ascii_alnum(c),
        Class::Digit => is_ascii_digit(c),
        Class::AttrName => !is_html_space(c) && c != '=' && c != '>' && c != '/',
        Class::TagName => !is_html_space(c) && c != '>' && c != '/',
        Class::NotQuote(q) => c != q,
        Class::Hex => is_ascii_hex(c),
        Class::CssWs => c == '\n' || c == '\r' || c == '\u{c}' || c == '\t' || c == ' ',
        Class::Unquoted => !is_html_space(c) && c != '>',
    }
}

pub fn class_has(cl: &Class, c: char) -> (r: bool)
    ensures r == in_class(*cl, c),
{
    match cl {
        Class::HtmlSpace => html_space(c),
        Class::White => whitespace(c),
        Class::Alnum => alnum(c),
        Class::Digit => digit(c),
        Class::AttrName => !html_space(c) && c != '=' && c != '>' && c != '/',
        Class::TagName => !html_space(c) && c != '>' && c != '/',
        Class::NotQuote(q) => c != *q,
        Class::Hex => hex(c),
        Class::CssWs => c == '\n' || c == '\r' || c == '\u{c}' || c == '\t' || c == ' ',
        Class::Unquoted => !html_space(c) && c != '>',
    }
}

/// The end of the run of `cl` characters that starts at `i`.
pub open spec fn run_end(s: Seq<char>, i: int, end: int, cl: Class) -> int
    decreases end - i,
{
    if 0 <= i < end && end <= s.len() && in_class(cl, s[i]) {
        run_end(s, i + 1, end, cl)
    } else {
        i
    }
}

pub proof fn lemma_run_end(s: Seq<char>, i: int, end: int, cl: Class)
    requires
        0 <= i <= end <= s.len(),
    ensures
        i <= run_end(s, i, end, cl) <= end,
        forall|k: int| i <= k < run_end(s, i, end, cl) ==> in_class(cl, #[trigger] s[k]),
        run_end(s, i, end, cl) < end ==> !in_class(cl, s[run_end(s, i, end, cl)]),
    decreases end - i,
{
    if i < end && in_class(cl, s[i]) {
        lemma_run_end(s, i + 1, end, cl);
    }
}

pub fn run(s: &[char], i: usize, end: usize, cl: Class) -> (r: usize)
    requires
        i <= end <= s@.len(),
    ensures
        r == run_end(s@, i as int, end as int, cl),
        i <= r <= end,
{
    proof { lemma_run_end(s@, i as int, end as int, cl); }
    let mut j = i;
    while j < end && class_has(&cl, s[j])
        invariant
            i <= j <= end <= s@.len(),
            run_end(s@, i as int, end as int, cl) == run_end(s@, j as int, end as int, cl),
        decreases end - j,
    {
        j += 1;
    }
    j
}

/// The end of `s[from..to]` once trailing whitespace is trimmed.
pub open spec fn trim_end_pos(s: Seq<char>, from: int, to: int) -> int
    decreases to - from,
{
    if from < to && 0 <= to - 1 < s.len() && is_whitespace(s[to - 1]) {
        trim_end_pos(s, from, to - 1)
    } else {
        to
    }
}

pub proof fn lemma_trim_end(s: Seq<char>, from: int, to: int)
    requires
        0 <= from <= to <= s.len(),
    ensures
        from <= trim_end_pos(s, from, to) <= to,
    decreases to - from,
{
    if from < to && is_whitespace(s[to - 1]) {
        lemma_trim_end(s, from, to - 1);
    }
}

pub fn trim_end(s: &[char], from: usize, to: usize) -> (r: usize)
    requires
        from <= to <= s@.len(),
    ensures
        r == trim_end_pos(s@, from as int, to as int),
        from <= r <= to,
{
    proof { lemma_trim_end(s@, from as int, to as int); }
    let mut j = to;
    while from < j && whitespace(s[j - 1])
        invariant
            from <= j <= to <= s@.len(),
            trim_end_pos(s@, from as int, to as int) == trim_end_pos(s@, from as int, j as int),
        decreases j,
    {
        j -= 1;
    }
    j
}

/// Two ranges of one sequence, equal up to ASCII case.
pub fn ranges_eq_ignore_case(s: &[char], a0: usize, a1: usize, b0: usize, b1: usize) -> (r: bool)
    requires
        a0 <= a1 <= s@.len(),
        b0 <= b1 <= s@.len(),
    ensures
        r == eq_ignore_case(s@.subrange(a0 as int, a1 as int), s@.subrange(b0 as int, b1 as int)),
{
    if a1 - a0 != b1 - b0 {
        return false;
    }
    let n = a1 - a0;
    let mut k: usize = 0;
    while k < n
        invariant
            a0 <= a1 <= s@.len(),
            b0 <= b1 <= s@.len(),
            n == a1 - a0 == b1 - b0,
            k <= n,
            forall|j: int| 0 <= j < k ==> #[trigger] lower(s@.subrange(a0 as int, a1 as int)[j])
                == lower(s@.subrange(b0 as int, b1 as int)[j]),
        decreases n - k,
    {
        if to_lower(s[a0 + k]) != to_lower(s[b0 + k]) {
            assert(lower(s@.subrange(a0 as int, a1 as int)[k as int]) != lower(
                s@.subrange(b0 as int, b1 as int)[k as int],
            ));
            return false;
        }
        k += 1;
    }
    assert forall|j: int| 0 <= j < n implies #[trigger] lower(s@.subrange(a0 as int, a1 as int)[j])
        == lower(s@.subrange(b0 as int, b1 as int)[j]) by {}
    true
}

pub fn chars_of(s: &str) -> (out: Vec<char>)
    ensures
        out@ == s@,
{
    let mut out: Vec<char> = Vec::new();
    for c in it: s.chars()
        invariant
            out@ == it.seq().take(it.index() as int),
            it.seq() == s@,
    {
        out.push(c);
    }
    out
}

/// Appends one character; `String::push`.
#[verifier::external_body]
pub fn push_char(s: &mut String, c: char)
    ensures
        final(s)@ == old(s)@.push(c),
{
    s.push(c);
}

pub fn push_str(out: &mut String, s: &str)
    ensures
        final(out)@ == old(out)@ + s@,
{
    out.append(s);
}

/// Appends `cs[from..to]`.
pub fn push_range(out: &mut String, cs: &[char], from: usize, to: usize)
    requires
        from <= to <= cs@.len(),
    ensures
        final(out)@ == old(out)@ + cs@.subrange(from as int, to as int),
{
    let ghost start = out@;
    let mut i = from;
    while i < to
        invariant
            from <= i <= to <= cs@.len(),
            out@ == start + cs@.subrange(from as int, i as int),
        decreases to - i,
    {
        push_char(out, cs[i]);
        assert(cs@.subrange(from as int, i as int).push(cs@[i as int]) =~= cs@.subrange(
            from as int,
            i + 1,
        ));
        i += 1;
    }
}

pub fn string_of(cs: &[char]) -> (out: String)
    ensures
        out@ == cs@,
{
    let mut out = String::new();
    push_range(&mut out, cs, 0, cs.len());
    assert(cs@.subrange(0, cs@.len() as int) =~= cs@);
    out
}

pub fn range_string(cs: &[char], from: usize, to: usize) -> (out: String)
    requires
        from <= to <= cs@.len(),
    ensures
        out@ == cs@.subrange(from as int, to as int),
{
    let mut out = String::new();
    push_range(&mut out, cs, from, to);
    out
}


/// The two strings hold the same characters.
pub fn str_eq(a: &str, b: &str) -> (r: bool)
    ensures
        r == (a@ == b@),
{
    let n = a.unicode_len();
    if n != b.unicode_len() {
        return false;
    }
    let mut k: usize = 0;
    while k < n
        invariant
            n == a@.len() == b@.len(),
            k <= n,
            forall|j: int| 0 <= j < k ==> a@[j] == b@[j],
        decreases n - k,
    {
        if a.get_char(k) != b.get_char(k) {
            return false;
        }
        k += 1;
    }
    assert(a@ =~= b@);
    true
}

/// `s[from..to]` holds exactly the characters of `b`.
pub fn range_eq(s: &[char], from: usize, to: usize, b: &str) -> (r: bool)
    requires
        from <= to <= s@.len(),
    ensures
        r == (s@.subrange(from as int, to as int) == b@),
{
    let n = b.unicode_len();
    if to - from != n {
        return false;
    }
    let mut k: usize = 0;
    while k < n
        invariant
            from <= to <= s@.len(),
            to - from == n == b@.len(),
            k <= n,
            forall|j: int| 0 <= j < k ==> s@[from + j] == b@[j],
        decreases n - k,
    {
        if s[from + k] != b.get_char(k) {
            assert(s@.subrange(from as int, to as int)[k as int] != b@[k as int]);
            return false;
        }
        k += 1;
    }
    assert(s@.subrange(from as int, to as int) =~= b@);
    true
}

/// The character for a decimal digit.
pub open spec fn digit_char(d: nat) -> char {
    ('0' as u32 + d) as char
}

/// The decimal digits of `n`, most significant first.
pub open spec fn decimal(n: nat) -> Seq<char>
    decreases n,
{
    if n < 10 {
        seq![digit_char(n)]
    } else {
        decimal(n / 10) + seq![digit_char(n % 10)]
    }
}

/// `n` in decimal, with a `-` in front when it is negative.
pub open spec fn signed_decimal(n: int) -> Seq<char> {
    if n < 0 { seq!['-'] + decimal((-n) as nat) } else { decimal(n as nat) }
}

fn digit_of(d: u64) -> (r: char)
    requires
        d < 10,
    ensures
        r == digit_char(d as nat),
{
    let b: u8 = d as u8;
    let r = (48u8 + b) as char;
    assert(r == digit_char(d as nat)) by {
        assert(('0' as u32 + d) == (48 + b) as u32);
    }
    r
}

/// Appends `n` in decimal.
pub fn push_decimal(out: &mut String, n: u64)
    ensures
        final(out)@ == old(out)@ + decimal(n as nat),
    decreases n,
{
    let ghost start = out@;
    if n >= 10 {
        push_decimal(out, n / 10);
    }
    push_char(out, digit_of(n % 10));
    if n >= 10 {
        assert(out@ =~= start + decimal(n as nat));
    } else {
        assert(out@ =~= start + decimal(n as nat));
    }
}

/// Appends `n` in decimal, with a `-` in front when it is negative.
pub fn push_signed(out: &mut String, n: i64)
    ensures
        final(out)@ == old(out)@ + signed_decimal(n as int),
{
    if n < 0 {
        push_char(out, '-');
        let m: u64 = if n == i64::MIN { 9223372036854775808u64 } else { (-n) as u64 };
        let ghost mid = out@;
        push_decimal(out, m);
        assert(out@ =~= old(out)@ + signed_decimal(n as int));
    } else {
        push_decimal(out, n as u64);
    }
}

/// `n` in decimal.
pub fn decimal_string(n: u64) -> (r: String)
    ensures
        r@ == decimal(n as nat),
{
    let mut out = String::new();
    push_decimal(&mut out, n);
    out
}

/// The start of `s[from..to]` once leading whitespace is trimmed.
pub open spec fn trim_start_pos(s: Seq<char>, from: int, to: int) -> int
    decreases to - from,
{
    if 0 <= from < to && to <= s.len() && is_whitespace(s[from]) {
        trim_start_pos(s, from + 1, to)
    } else {
        from
    }
}

pub fn trim_start(s: &[char], from: usize, to: usize) -> (r: usize)
    requires
        from <= to <= s@.len(),
    ensures
        r == trim_start_pos(s@, from as int, to as int),
        from <= r <= to,
{
    let mut j = from;
    while j < to && whitespace(s[j])
        invariant
            from <= j <= to <= s@.len(),
            trim_start_pos(s@, from as int, to as int) == trim_start_pos(s@, j as int, to as int),
        decreases to - j,
    {
        j += 1;
    }
    j
}


/// `n` in decimal, zero-padded on the left to `w` characters.
pub open spec fn padded(n: nat, w: nat) -> Seq<char> {
    let d = decimal(n);
    if d.len() < w { Seq::new((w - d.len()) as nat, |i: int| '0') + d } else { d }
}

/// `n` as `format!("{n:0w$}")` writes it: the sign counts toward the width.
pub open spec fn signed_padded(n: int, w: nat) -> Seq<char> {
    if n < 0 {
        seq!['-'] + padded((-n) as nat, if w > 0 { (w - 1) as nat } else { 0 })
    } else {
        padded(n as nat, w)
    }
}

/// Appends `n` zero-padded to `w` characters.
pub fn push_padded(out: &mut String, n: u64, w: usize)
    ensures
        final(out)@ == old(out)@ + padded(n as nat, w as nat),
{
    let digits = decimal_string(n);
    let len = digits.as_str().unicode_len();
    let ghost start = out@;
    if len < w {
        let mut k: usize = 0;
        while k < w - len
            invariant
                len < w,
                k <= w - len,
                out@ == start + Seq::new(k as nat, |i: int| '0'),
            decreases w - len - k,
        {
            push_char(out, '0');
            assert(out@ =~= start + Seq::new((k + 1) as nat, |i: int| '0'));
            k += 1;
        }
    }
    push_str(out, digits.as_str());
    assert(out@ =~= start + padded(n as nat, w as nat));
}

/// Appends `n` as `format!` writes it with zero padding to `w` characters.
pub fn push_signed_padded(out: &mut String, n: i64, w: usize)
    requires
        n > i64::MIN,
    ensures
        final(out)@ == old(out)@ + signed_padded(n as int, w as nat),
{
    if n < 0 {
        push_char(out, '-');
        let ghost mid = out@;
        push_padded(out, (-n) as u64, if w > 0 { w - 1 } else { 0 });
        assert(out@ =~= old(out)@ + signed_padded(n as int, w as nat));
    } else {
        push_padded(out, n as u64, w);
    }
}

/// The value of a run of ASCII digits.
pub open spec fn digits_value(s: Seq<char>) -> nat
    decreases s.len(),
{
    if s.len() == 0 {
        0
    } else {
        digits_value(s.drop_last()) * 10 + (s.last() as nat - '0' as nat) as nat
    }
}

pub open spec fn all_digits(s: Seq<char>) -> bool {
    s.len() > 0 && forall|k: int| 0 <= k < s.len() ==> #[trigger] is_ascii_digit(s[k])
}

/// What `str::parse::<i32>` gives: an optional sign, then ASCII digits, in
/// range.
pub open spec fn parse_i32_spec(s: Seq<char>) -> Option<i32> {
    let neg = s.len() > 0 && s[0] == '-';
    let body = if s.len() > 0 && (s[0] == '-' || s[0] == '+') { s.drop_first() } else { s };
    let v: int = if neg { -(digits_value(body) as int) } else { digits_value(body) as int };
    if all_digits(body) && i32::MIN <= v <= i32::MAX { Some(v as i32) } else { None }
}

/// What `str::parse::<u32>` gives: an optional `+`, then ASCII digits, in
/// range.
pub open spec fn parse_u32_spec(s: Seq<char>) -> Option<u32> {
    let body = if s.len() > 0 && s[0] == '+' { s.drop_first() } else { s };
    if all_digits(body) && digits_value(body) <= u32::MAX { Some(digits_value(body) as u32) } else { None }
}

pub const DIGITS_CAP: u64 = 10000000000;

proof fn lemma_capped_step(v: nat, d: nat)
    requires
        d < 10,
    ensures
        (if v < DIGITS_CAP { v } else { DIGITS_CAP as nat }) * 10 + d >= DIGITS_CAP ==> v * 10 + d
            >= DIGITS_CAP,
        v < DIGITS_CAP ==> (v * 10 + d) == (if v < DIGITS_CAP { v } else { DIGITS_CAP as nat }) * 10 + d,
{
}

/// The value of the digits `s[from..to]`, or `DIGITS_CAP` if it is that much or more;
/// `None` unless they are all digits and there is one.
fn digits_capped(s: &[char], from: usize, to: usize) -> (r: Option<u64>)
    requires
        from <= to <= s@.len(),
    ensures
        match r {
            Some(v) => all_digits(s@.subrange(from as int, to as int)) && v == (if digits_value(
                s@.subrange(from as int, to as int),
            ) < DIGITS_CAP { digits_value(s@.subrange(from as int, to as int)) } else { DIGITS_CAP as nat }),
            None => !all_digits(s@.subrange(from as int, to as int)),
        },
{
    if from == to {
        return None;
    }
    let mut v: u64 = 0;
    let mut k = from;
    while k < to
        invariant
            from <= k <= to <= s@.len(),
            forall|j: int| from <= j < k ==> is_ascii_digit(#[trigger] s@[j]),
            v == (if digits_value(s@.subrange(from as int, k as int)) < DIGITS_CAP {
                digits_value(s@.subrange(from as int, k as int))
            } else {
                DIGITS_CAP as nat
            }),
        decreases to - k,
    {
        let c = s[k];
        if !digit(c) {
            assert(!is_ascii_digit(s@.subrange(from as int, to as int)[k - from]));
            return None;
        }
        let d: u64 = (c as u32 - '0' as u32) as u64;
        let ghost before = s@.subrange(from as int, k as int);
        assert(s@.subrange(from as int, k + 1).drop_last() =~= before);
        assert(digits_value(s@.subrange(from as int, k + 1)) == digits_value(before) * 10 + d);
        proof { lemma_capped_step(digits_value(before), d as nat); }
        if v >= DIGITS_CAP || v * 10 + d >= DIGITS_CAP {
            v = DIGITS_CAP;
        } else {
            v = v * 10 + d;
        }
        k += 1;
    }
    assert forall|j: int| 0 <= j < to - from implies #[trigger] is_ascii_digit(
        s@.subrange(from as int, to as int)[j],
    ) by {
        assert(is_ascii_digit(s@[from + j]));
    }
    Some(v)
}

/// `str::parse::<i32>` of `s[from..to]`.
pub fn parse_i32_at(s: &[char], from: usize, to: usize) -> (r: Option<i32>)
    requires
        from <= to <= s@.len(),
    ensures
        r == parse_i32_spec(s@.subrange(from as int, to as int)),
{
    let ghost t = s@.subrange(from as int, to as int);
    let neg = from < to && s[from] == '-';
    let signed = from < to && (s[from] == '-' || s[from] == '+');
    let b = if signed { from + 1 } else { from };
    assert(s@.subrange(b as int, to as int) =~= (if signed { t.drop_first() } else { t }));
    match digits_capped(s, b, to) {
        None => None,
        Some(v) => {
            if neg {
                if v > 2147483648 {
                    None
                } else {
                    Some((0 - (v as i64)) as i32)
                }
            } else {
                if v > 2147483647 {
                    None
                } else {
                    Some(v as i32)
                }
            }
        },
    }
}

/// `str::parse::<u32>` of `s[from..to]`.
pub fn parse_u32_at(s: &[char], from: usize, to: usize) -> (r: Option<u32>)
    requires
        from <= to <= s@.len(),
    ensures
        r == parse_u32_spec(s@.subrange(from as int, to as int)),
{
    let ghost t = s@.subrange(from as int, to as int);
    let plus = from < to && s[from] == '+';
    let b = if plus { from + 1 } else { from };
    assert(s@.subrange(b as int, to as int) =~= (if plus { t.drop_first() } else { t }));
    match digits_capped(s, b, to) {
        None => None,
        Some(v) => if v > 4294967295 {
            None
        } else {
            Some(v as u32)
        },
    }
}

/// What `format!("{:?}", s)` writes for a string: quoted, with quotes,
/// backslashes and the characters Rust does not print escaped.
pub uninterp spec fn str_debug(s: Seq<char>) -> Seq<char>;

/// `format!("{:?}", s)`, through `<str as Debug>::fmt`.
#[verifier::external_body]
pub fn debug_str(s: &str) -> (r: String)
    ensures
        r@ == str_debug(s@),
{
    format!("{:?}", s)
}

/// Whether `a` sorts before `b` character by character, a prefix first: the
/// order `str` compares in, since UTF-8 keeps code point order byte by byte.
pub open spec fn chars_lt(a: Seq<char>, b: Seq<char>) -> bool
    decreases a.len(),
{
    if a.len() == 0 {
        b.len() > 0
    } else if b.len() == 0 {
        false
    } else if a[0] != b[0] {
        a[0] < b[0]
    } else {
        chars_lt(a.drop_first(), b.drop_first())
    }
}

/// No string sorts before itself.
pub proof fn lemma_chars_lt_irreflexive(a: Seq<char>)
    ensures
        !chars_lt(a, a),
    decreases a.len(),
{
    if a.len() > 0 {
        lemma_chars_lt_irreflexive(a.drop_first());
    }
}

/// Sorting before is transitive.
pub proof fn lemma_chars_lt_transitive(a: Seq<char>, b: Seq<char>, c: Seq<char>)
    requires
        chars_lt(a, b),
        chars_lt(b, c),
    ensures
        chars_lt(a, c),
    decreases a.len(),
{
    if a.len() > 0 && b.len() > 0 && c.len() > 0 && a[0] == b[0] && b[0] == c[0] {
        lemma_chars_lt_transitive(a.drop_first(), b.drop_first(), c.drop_first());
    }
}

/// Of two different strings, one sorts before the other.
pub proof fn lemma_chars_lt_total(a: Seq<char>, b: Seq<char>)
    requires
        a != b,
    ensures
        chars_lt(a, b) || chars_lt(b, a),
    decreases a.len(),
{
    if a.len() > 0 && b.len() > 0 && a[0] == b[0] {
        if a.drop_first() == b.drop_first() {
            assert(a =~= seq![a[0]] + a.drop_first());
            assert(b =~= seq![b[0]] + b.drop_first());
        }
        lemma_chars_lt_total(a.drop_first(), b.drop_first());
    } else if a.len() == 0 && b.len() == 0 {
        assert(a =~= b);
    }
}

proof fn lemma_chars_lt_skip(a: Seq<char>, b: Seq<char>, k: int)
    requires
        0 <= k < a.len(),
        k < b.len(),
        a[k] == b[k],
    ensures
        chars_lt(a.skip(k), b.skip(k)) == chars_lt(a.skip(k + 1), b.skip(k + 1)),
{
    assert(a.skip(k).drop_first() =~= a.skip(k + 1));
    assert(b.skip(k).drop_first() =~= b.skip(k + 1));
}

/// `a < b` for strings.
pub fn str_lt(a: &str, b: &str) -> (r: bool)
    ensures
        r == chars_lt(a@, b@),
{
    let n = a.unicode_len();
    let m = b.unicode_len();
    let mut k: usize = 0;
    proof {
        assert(a@.skip(0) =~= a@);
        assert(b@.skip(0) =~= b@);
    }
    while k < n && k < m
        invariant
            n == a@.len(),
            m == b@.len(),
            k <= n,
            k <= m,
            chars_lt(a@, b@) == chars_lt(a@.skip(k as int), b@.skip(k as int)),
        decreases n - k,
    {
        let x = a.get_char(k);
        let y = b.get_char(k);
        if x != y {
            return x < y;
        }
        proof { lemma_chars_lt_skip(a@, b@, k as int); }
        k += 1;
    }
    k == n && k < m
}

} // verus!
