//! A date written out as `YYYY-MM-DD` reads back as the same date, every
//! such text names the date it reads as, and a time after it is ignored.
use vstd::prelude::*;

use crate::date::{date_end, parse_spec, trimmed, valid_ymd, ymd_error, ymd_fields, ymd_text};
use crate::text::{
    all_digits, decimal, digit_char, digits_value, find_char_spec, is_ascii_digit, is_whitespace,
    padded, parse_i32_spec, parse_u32_spec, signed_padded, trim_end_pos, trim_start_pos,
    lemma_trim_end,
};

verus! {

proof fn lemma_digit(d: nat)
    requires
        d < 10,
    ensures
        is_ascii_digit(digit_char(d)),
        digit_char(d) as nat - '0' as nat == d,
{
    assert(digit_char(d) as u32 == '0' as u32 + d);
}

/// `decimal(n)` is all digits and reads back as `n`.
proof fn lemma_decimal(n: nat)
    ensures
        all_digits(decimal(n)),
        digits_value(decimal(n)) == n,
    decreases n,
{
    if n < 10 {
        lemma_digit(n);
        let s = decimal(n);
        assert(s.drop_last() =~= Seq::<char>::empty());
        assert(digits_value(s.drop_last()) == 0);
        assert(s.last() == digit_char(n));
        assert(digits_value(s) == digits_value(s.drop_last()) * 10 + (s.last() as nat - '0' as nat) as nat);
    } else {
        lemma_decimal(n / 10);
        lemma_digit(n % 10);
        let s = decimal(n);
        assert(s.drop_last() =~= decimal(n / 10));
        assert(s.last() == digit_char(n % 10));
        assert((n / 10) * 10 + n % 10 == n) by (nonlinear_arith);
        assert(digits_value(s) == digits_value(s.drop_last()) * 10 + (s.last() as nat - '0' as nat) as nat);
        assert(digits_value(s.drop_last()) == n / 10);
        assert forall|k: int| 0 <= k < s.len() implies #[trigger] is_ascii_digit(s[k]) by {
            if k < s.len() - 1 {
                assert(s[k] == decimal(n / 10)[k]);
            }
        }
    }
}

pub open spec fn zeros(z: nat) -> Seq<char> {
    Seq::new(z, |i: int| '0')
}

proof fn lemma_zeros_value(z: nat)
    ensures
        digits_value(zeros(z)) == 0,
    decreases z,
{
    if z > 0 {
        assert(zeros(z).drop_last() =~= zeros((z - 1) as nat));
        lemma_zeros_value((z - 1) as nat);
    }
}

/// Digits worth nothing in front of digits change nothing of their value.
proof fn lemma_lead(a: Seq<char>, d: Seq<char>)
    requires
        digits_value(a) == 0,
    ensures
        digits_value(a + d) == digits_value(d),
    decreases d.len(),
{
    if d.len() == 0 {
        assert(a + d =~= a);
    } else {
        assert((a + d).drop_last() =~= a + d.drop_last());
        assert((a + d).last() == d.last());
        lemma_lead(a, d.drop_last());
    }
}

/// `padded(n, w)` is all digits and reads back as `n`.
proof fn lemma_padded(n: nat, w: nat)
    ensures
        all_digits(padded(n, w)),
        digits_value(padded(n, w)) == n,
        !padded(n, w).contains('-'),
        !is_whitespace(padded(n, w)[0]),
        !is_whitespace(padded(n, w).last()),
        padded(n, w)[0] != '+',
{
    lemma_decimal(n);
    let d = decimal(n);
    if d.len() < w {
        let z = zeros((w - d.len()) as nat);
        assert(padded(n, w) == z + d);
        lemma_zeros_value((w - d.len()) as nat);
        lemma_lead(z, d);
        let p = z + d;
        assert forall|k: int| 0 <= k < p.len() implies #[trigger] is_ascii_digit(p[k]) by {
            if k >= z.len() {
                assert(p[k] == d[k - z.len()]);
            }
        }
    }
    let p = padded(n, w);
    assert(is_ascii_digit(p[0]));
    assert(is_ascii_digit(p[p.len() - 1]));
    if p.contains('-') {
        let k = choose|k: int| 0 <= k < p.len() && p[k] == '-';
        assert(is_ascii_digit(p[k]));
    }
}

proof fn lemma_find_first(s: Seq<char>, i: int, end: int, c: char, k: int)
    requires
        0 <= i <= k < end <= s.len(),
        s[k] == c,
        forall|j: int| i <= j < k ==> s[j] != c,
    ensures
        find_char_spec(s, i, end, c) == Some(k),
    decreases k - i,
{
    if i < k {
        lemma_find_first(s, i + 1, end, c, k);
    }
}

proof fn lemma_find_none(s: Seq<char>, i: int, end: int, c: char)
    requires
        0 <= i <= end <= s.len(),
        forall|j: int| i <= j < end ==> s[j] != c,
    ensures
        find_char_spec(s, i, end, c) is None,
    decreases end - i,
{
    if i < end {
        lemma_find_none(s, i + 1, end, c);
    }
}

proof fn lemma_no_date_end(s: Seq<char>, k: int)
    requires
        0 <= k <= s.len(),
        forall|j: int| k <= j < s.len() ==> s[j] != 'T' && s[j] != ' ',
    ensures
        date_end(s, k) == s.len(),
    decreases s.len() - k,
{
    if k < s.len() {
        lemma_no_date_end(s, k + 1);
    }
}

/// A date from year 0 on, written as `iso` writes it, reads back as itself.
pub proof fn lemma_iso_parses(y: int, m: int, d: int)
    requires
        valid_ymd(y, m, d),
        0 <= y <= i32::MAX,
    ensures
        parse_spec(signed_padded(y, 4) + "-"@ + padded(m as nat, 2) + "-"@ + padded(d as nat, 2))
            == Ok::<(int, int, int), Seq<char>>((y, m, d)),
{
    reveal_strlit("-");
    let ys = padded(y as nat, 4);
    let ms = padded(m as nat, 2);
    let ds = padded(d as nat, 2);
    lemma_padded(y as nat, 4);
    lemma_padded(m as nat, 2);
    lemma_padded(d as nat, 2);
    assert(signed_padded(y, 4) == ys);
    let s = ys + "-"@ + ms + "-"@ + ds;
    let h1 = ys.len() as int;
    let h2 = h1 + 1 + ms.len();
    let n = s.len() as int;
    assert(s.subrange(0, h1) =~= ys);
    assert(s.subrange(h1 + 1, h2) =~= ms);
    assert(s.subrange(h2 + 1, n) =~= ds);
    assert forall|j: int| 0 <= j < n && j != h1 && j != h2 implies s[j] != '-' && s[j] != 'T' && s[j] != ' ' by {
        if j < h1 {
            assert(s[j] == ys[j]);
            assert(is_ascii_digit(ys[j]));
        } else if j < h2 {
            assert(s[j] == ms[j - h1 - 1]);
            assert(is_ascii_digit(ms[j - h1 - 1]));
        } else {
            assert(s[j] == ds[j - h2 - 1]);
            assert(is_ascii_digit(ds[j - h2 - 1]));
        }
    }
    assert(s[h1] == '-' && s[h2] == '-');
    lemma_no_date_end(s, 0);
    lemma_find_first(s, 0, n, '-', h1);
    lemma_find_first(s, h1 + 1, n, '-', h2);
    lemma_find_none(s, h2 + 1, n, '-');
    assert(trim_start_pos(s, 0, h1) == 0);
    assert(trim_end_pos(s, 0, h1) == h1);
    assert(trimmed(s, 0, h1) =~= ys);
    assert(trim_start_pos(s, h1 + 1, h2) == h1 + 1);
    assert(trim_end_pos(s, h1 + 1, h2) == h2);
    assert(trimmed(s, h1 + 1, h2) =~= ms);
    assert(trim_start_pos(s, h2 + 1, n) == h2 + 1);
    assert(trim_end_pos(s, h2 + 1, n) == n);
    assert(trimmed(s, h2 + 1, n) =~= ds);
    assert(parse_i32_spec(ys) == Some(y as i32));
    assert(parse_u32_spec(ms) == Some(m as u32));
    assert(parse_u32_spec(ds) == Some(d as u32));
    assert(ymd_error(y, m, d) is None);
}

/// The digit `d` stands for, written back, is `d`.
proof fn lemma_digit_back(c: char)
    requires
        is_ascii_digit(c),
    ensures
        digit_char((c as nat - '0' as nat) as nat) == c,
{
    let v = (c as nat - '0' as nat) as nat;
    assert(digit_char(v) as u32 == '0' as u32 + v);
    assert(digit_char(v) as u32 == c as u32);
}

/// One more place of width splits off the last digit.
proof fn lemma_padded_step(v: nat, w: nat)
    requires
        w >= 1,
    ensures
        padded(v, w + 1) == padded(v / 10, w) + seq![digit_char(v % 10)],
{
    if v >= 10 {
        assert(decimal(v) == decimal(v / 10) + seq![digit_char(v % 10)]);
        let l = decimal(v / 10).len();
        if l < w {
            assert(padded(v, w + 1) =~= Seq::new((w - l) as nat, |i: int| '0') + decimal(v / 10) + seq![
                digit_char(v % 10),
            ]);
        }
    } else {
        assert(v / 10 == 0 && v % 10 == v);
        assert(decimal(0) == seq![digit_char(0)]);
        assert(digit_char(0) as u32 == '0' as u32);
        assert(digit_char(0) == '0');
        assert(padded(0, w) =~= Seq::new(w, |i: int| '0'));
        assert(padded(v, w + 1) =~= Seq::new(w, |i: int| '0') + seq![digit_char(v)]);
    }
}

/// A run of digits is its own value, zero-padded to its length.
proof fn lemma_padded_digits(t: Seq<char>)
    requires
        all_digits(t),
    ensures
        padded(digits_value(t), t.len()) == t,
    decreases t.len(),
{
    assert(is_ascii_digit(t[t.len() - 1]));
    let e = (t.last() as nat - '0' as nat) as nat;
    assert(e < 10);
    lemma_digit_back(t.last());
    if t.len() == 1 {
        assert(t.drop_last() =~= Seq::<char>::empty());
        assert(digits_value(t.drop_last()) == 0);
        assert(t.last() == t[0]);
        assert(digits_value(t) == digits_value(t.drop_last()) * 10 + (t.last() as nat - '0' as nat) as nat);
        assert(digits_value(t) == e);
        assert(decimal(e) == seq![digit_char(e)]);
        assert(padded(e, 1) =~= t);
    } else {
        let u = t.drop_last();
        assert forall|k: int| 0 <= k < u.len() implies #[trigger] is_ascii_digit(u[k]) by {
            assert(u[k] == t[k]);
        }
        lemma_padded_digits(u);
        let v = digits_value(t);
        assert(v == digits_value(u) * 10 + e);
        vstd::arithmetic::div_mod::lemma_fundamental_div_mod_converse(v as int, 10, digits_value(u) as int, e as int);
        lemma_padded_step(v, u.len());
        assert(padded(v, t.len()) =~= t);
    }
}

/// Every text of four digits, a dash, two digits, a dash and two digits that
/// names a real date reads as that date, and `iso` writes that date back as
/// the same text.
pub proof fn lemma_iso_text_round_trip(s: Seq<char>)
    requires
        ymd_text(s),
    ensures
        ({
            let (y, m, d) = ymd_fields(s);
            &&& parse_spec(s) == Ok::<(int, int, int), Seq<char>>((y, m, d))
            &&& signed_padded(y, 4) + "-"@ + padded(m as nat, 2) + "-"@ + padded(d as nat, 2) == s
            &&& 0 <= y < 10000
        }),
{
    reveal_strlit("-");
    let ys = s.subrange(0, 4);
    let ms = s.subrange(5, 7);
    let ds = s.subrange(8, 10);
    assert forall|k: int| 0 <= k < 4 implies #[trigger] is_ascii_digit(ys[k]) by {
        assert(ys[k] == s[k]);
    }
    assert forall|k: int| 0 <= k < 2 implies #[trigger] is_ascii_digit(ms[k]) by {
        assert(ms[k] == s[k + 5]);
    }
    assert forall|k: int| 0 <= k < 2 implies #[trigger] is_ascii_digit(ds[k]) by {
        assert(ds[k] == s[k + 8]);
    }
    lemma_padded_digits(ys);
    lemma_padded_digits(ms);
    lemma_padded_digits(ds);
    let y = digits_value(ys) as int;
    let m = digits_value(ms) as int;
    let d = digits_value(ds) as int;
    lemma_padded(y as nat, 4);
    assert(y < 10000) by {
        assert(padded(y as nat, 4).len() == 4);
        lemma_decimal_len(y as nat);
        assert(decimal(y as nat).len() >= 1);
    }
    assert(signed_padded(y, 4) == ys);
    assert(ys + "-"@ + ms + "-"@ + ds =~= s);
    lemma_iso_parses(y, m, d);
}

/// Numbers from ten on take two digits or more, from a hundred on three, and
/// so on up to five digits from ten thousand on.
proof fn lemma_decimal_len(n: nat)
    ensures
        n >= 10 ==> decimal(n).len() >= 2,
        n >= 100 ==> decimal(n).len() >= 3,
        n >= 1000 ==> decimal(n).len() >= 4,
        n >= 10000 ==> decimal(n).len() >= 5,
    decreases n,
{
    if n >= 10 {
        lemma_decimal_len(n / 10);
        assert(decimal(n).len() == decimal(n / 10).len() + 1);
    }
}

proof fn lemma_date_end_suffix(s: Seq<char>, t: Seq<char>, k: int)
    requires
        0 <= k <= s.len(),
        forall|j: int| 0 <= j < s.len() ==> s[j] != 'T' && s[j] != ' ',
        t.len() > 0,
        t[0] == 'T' || t[0] == ' ',
    ensures
        date_end(s + t, k) == s.len(),
    decreases s.len() - k,
{
    if k < s.len() {
        assert((s + t)[k] == s[k]);
        lemma_date_end_suffix(s, t, k + 1);
    } else {
        assert((s + t)[k] == t[0]);
    }
}

proof fn lemma_find_prefix(s: Seq<char>, t: Seq<char>, i: int, end: int, c: char)
    requires
        end <= s.len(),
    ensures
        find_char_spec(s + t, i, end, c) == find_char_spec(s, i, end, c),
    decreases end - i,
{
    if 0 <= i < end {
        assert((s + t)[i] == s[i]);
        lemma_find_prefix(s, t, i + 1, end, c);
    }
}

proof fn lemma_trim_prefix(s: Seq<char>, t: Seq<char>, a: int, b: int)
    requires
        0 <= a <= b <= s.len(),
    ensures
        trim_start_pos(s + t, a, b) == trim_start_pos(s, a, b),
        trim_end_pos(s + t, a, b) == trim_end_pos(s, a, b),
        a <= trim_start_pos(s, a, b) <= b,
    decreases b - a,
{
    if a < b {
        assert((s + t)[a] == s[a]);
        assert((s + t)[b - 1] == s[b - 1]);
        lemma_trim_prefix(s, t, a + 1, b);
        lemma_trim_prefix(s, t, a, b - 1);
    }
}

proof fn lemma_trimmed_prefix(s: Seq<char>, t: Seq<char>, a: int, b: int)
    requires
        0 <= a <= b <= s.len(),
    ensures
        trimmed(s + t, a, b) == trimmed(s, a, b),
{
    lemma_trim_prefix(s, t, a, b);
    let x = trim_start_pos(s, a, b);
    lemma_trim_prefix(s, t, x, b);
    lemma_trim_end(s, x, b);
    assert((s + t).subrange(x, trim_end_pos(s, x, b)) =~= s.subrange(x, trim_end_pos(s, x, b)));
}

/// A time after the date, begun by `T` or a space, changes nothing of what
/// the date reads as: the text with it reads as a date exactly when the text
/// without it does, and then as the same date.
pub proof fn lemma_time_ignored(s: Seq<char>, t: Seq<char>)
    requires
        forall|j: int| 0 <= j < s.len() ==> s[j] != 'T' && s[j] != ' ',
        t.len() > 0,
        t[0] == 'T' || t[0] == ' ',
    ensures
        (parse_spec(s + t) is Ok) == (parse_spec(s) is Ok),
        parse_spec(s) is Ok ==> parse_spec(s + t) == parse_spec(s),
{
    let u = s + t;
    let n = s.len() as int;
    lemma_date_end_suffix(s, t, 0);
    lemma_no_date_end(s, 0);
    lemma_find_prefix(s, t, 0, n, '-');
    crate::text::lemma_find_char_bounds(s, 0, n, '-');
    if let Some(h1) = find_char_spec(s, 0, n, '-') {
        lemma_find_prefix(s, t, h1 + 1, n, '-');
        crate::text::lemma_find_char_bounds(s, h1 + 1, n, '-');
        lemma_trimmed_prefix(s, t, 0, h1);
        if let Some(h2) = find_char_spec(s, h1 + 1, n, '-') {
            lemma_find_prefix(s, t, h2 + 1, n, '-');
            lemma_trimmed_prefix(s, t, h1 + 1, h2);
            lemma_trimmed_prefix(s, t, h2 + 1, n);
        }
    }
}

} // verus!
