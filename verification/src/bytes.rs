//! Byte offsets into UTF-8 text, and the characters they stand before.
use vstd::prelude::*;

use vstd::utf8::{encode_scalar, encode_utf8};

verus! {

/// How many bytes UTF-8 spends on `c`.
pub open spec fn char_width(c: char) -> int {
    if (c as u32) <= 0x7F {
        1
    } else if (c as u32) <= 0x7FF {
        2
    } else if (c as u32) <= 0xFFFF {
        3
    } else {
        4
    }
}

/// How many bytes `s` takes in UTF-8.
pub open spec fn utf8_len(s: Seq<char>) -> int
    decreases s.len(),
{
    if s.len() == 0 {
        0
    } else {
        char_width(s[0]) + utf8_len(s.drop_first())
    }
}

/// The byte offset of character `k` of `s`.
pub open spec fn bytes_upto(s: Seq<char>, k: int) -> int {
    utf8_len(s.subrange(0, k))
}

/// How many characters of `s[i..]` lie wholly within its first `at` bytes.
pub open spec fn chars_from_byte(s: Seq<char>, i: int, at: int) -> int
    decreases s.len() - i,
{
    if !(0 <= i < s.len()) || at < char_width(s[i]) {
        0
    } else {
        1 + chars_from_byte(s, i + 1, at - char_width(s[i]))
    }
}

/// The characters of `s` that lie wholly before byte `at`.
pub open spec fn chars_before(s: Seq<char>, at: int) -> int {
    chars_from_byte(s, 0, at)
}

/// Byte `at` starts a character of `s`, or is its end.
pub open spec fn on_boundary(s: Seq<char>, at: int) -> bool {
    bytes_upto(s, chars_before(s, at)) == at
}

pub proof fn lemma_utf8_push(s: Seq<char>, c: char)
    ensures
        utf8_len(s.push(c)) == utf8_len(s) + char_width(c),
        utf8_len(s) >= 0,
    decreases s.len(),
{
    if s.len() == 0 {
        assert(s.push(c).drop_first() =~= Seq::<char>::empty());
        assert(s.push(c)[0] == c);
        assert(utf8_len(s.push(c).drop_first()) == 0);
    } else {
        assert(s.push(c).drop_first() =~= s.drop_first().push(c));
        assert(s.push(c)[0] == s[0]);
        lemma_utf8_push(s.drop_first(), c);
    }
}

proof fn lemma_encode_len(s: Seq<char>)
    ensures
        encode_utf8(s).len() == utf8_len(s),
    decreases s.len(),
{
    if s.len() > 0 {
        lemma_encode_len(s.drop_first());
        let v = s[0] as u32;
        vstd::utf8::char_is_scalar(s[0]);
        assert(encode_scalar(v).len() == char_width(s[0]));
    }
}

/// The prefixes of `s` grow with their length.
pub proof fn lemma_bytes_mono(s: Seq<char>, j: int, k: int)
    requires
        0 <= j <= k <= s.len(),
    ensures
        0 <= bytes_upto(s, j) <= bytes_upto(s, k),
    decreases k - j,
{
    if j < k {
        lemma_bytes_mono(s, j, k - 1);
        assert(s.subrange(0, k) =~= s.subrange(0, k - 1).push(s[k - 1]));
        lemma_utf8_push(s.subrange(0, k - 1), s[k - 1]);
    } else {
        lemma_utf8_push(s.subrange(0, j), 'a');
    }
}

fn char_width_exec(c: char) -> (r: usize)
    ensures
        r == char_width(c),
{
    if (c as u32) <= 0x7F {
        1
    } else if (c as u32) <= 0x7FF {
        2
    } else if (c as u32) <= 0xFFFF {
        3
    } else {
        4
    }
}

/// The byte offset of every character of `s`, and of its end.
pub fn byte_offsets(s: &str, cs: &[char]) -> (r: Vec<usize>)
    requires
        cs@ == s@,
    ensures
        r@.len() == cs@.len() + 1,
        forall|k: int| 0 <= k <= cs@.len() ==> r@[k] == bytes_upto(cs@, k),
{
    let total = s.as_bytes().len();
    proof {
        lemma_encode_len(s@);
        assert(cs@.subrange(0, cs@.len() as int) =~= cs@);
    }
    let mut r: Vec<usize> = Vec::new();
    r.push(0);
    proof {
        assert(cs@.subrange(0, 0) =~= Seq::<char>::empty());
    }
    let mut b: usize = 0;
    let mut k: usize = 0;
    while k < cs.len()
        invariant
            cs@ == s@,
            k <= cs@.len(),
            total == utf8_len(cs@),
            r@.len() == k + 1,
            b == bytes_upto(cs@, k as int),
            forall|j: int| 0 <= j <= k ==> r@[j] == bytes_upto(cs@, j),
        decreases cs@.len() - k,
    {
        let w = char_width_exec(cs[k]);
        proof {
            assert(cs@.subrange(0, k + 1) =~= cs@.subrange(0, k as int).push(cs@[k as int]));
            lemma_utf8_push(cs@.subrange(0, k as int), cs@[k as int]);
            lemma_bytes_mono(cs@, k + 1, cs@.len() as int);
            assert(cs@.subrange(0, cs@.len() as int) =~= cs@);
        }
        b = b + w;
        r.push(b);
        k += 1;
    }
    r
}

/// The characters of `cs` that lie wholly before byte `at`, and their bytes.
pub fn char_of_byte(cs: &[char], at: usize) -> (r: (usize, usize))
    ensures
        r.0 == chars_before(cs@, at as int),
        r.0 <= cs@.len(),
        r.1 == bytes_upto(cs@, r.0 as int),
        r.1 <= at,
{
    let mut k: usize = 0;
    let mut b: usize = 0;
    proof {
        assert(cs@.subrange(0, 0) =~= Seq::<char>::empty());
    }
    while k < cs.len() && char_width_exec(cs[k]) <= at - b
        invariant
            k <= cs@.len(),
            b <= at,
            b == bytes_upto(cs@, k as int),
            chars_before(cs@, at as int) == k + chars_from_byte(cs@, k as int, at - b),
        decreases cs@.len() - k,
    {
        let w = char_width_exec(cs[k]);
        proof {
            assert(cs@.subrange(0, k + 1) =~= cs@.subrange(0, k as int).push(cs@[k as int]));
            lemma_utf8_push(cs@.subrange(0, k as int), cs@[k as int]);
        }
        b = b + w;
        k += 1;
    }
    (k, b)
}

} // verus!
