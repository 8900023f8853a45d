//! The assets every page shares: stylesheets, scripts, and the fonts to
//! preload.
use vstd::prelude::*;

use crate::text::{push_char, push_str};
use vstd::utf8::encode_utf8;

verus! {

pub const STYLESHEETS: [&'static str; 2] = ["fonts/fonts.css", "styles.css"];

pub const SCRIPTS: [&'static str; 4] = [
    "vendor/htmx.min.js",
    "vendor/head-support.min.js",
    "vendor/preload.min.js",
    "vendor/idiomorph-ext.min.js",
];

pub const PRELOAD_FONTS: [&'static str; 2] = [
    "/fonts/newsreader-300-700-normal-latin.woff2",
    "/fonts/jetbrainsmono-400-normal-latin.woff2",
];

#[derive(Clone, Copy)]
pub struct Page<'a> {
    pub css: &'a str,
    pub highlight: &'a str,
    pub script: &'a str,
}

pub const FNV_OFFSET: u64 = 0xcbf29ce484222325;

pub const FNV_PRIME: u64 = 0x100000001b3;

/// The 64-bit FNV-1a hash of `bytes`.
pub open spec fn fnv1a_spec(bytes: Seq<u8>) -> u64
    decreases bytes.len(),
{
    if bytes.len() == 0 {
        FNV_OFFSET
    } else {
        (fnv1a_spec(bytes.drop_last()) ^ (bytes.last() as u64)).wrapping_mul(FNV_PRIME)
    }
}

fn fnv1a(bytes: &[u8]) -> (r: u64)
    ensures
        r == fnv1a_spec(bytes@),
{
    let mut h: u64 = FNV_OFFSET;
    let mut k: usize = 0;
    while k < bytes.len()
        invariant
            k <= bytes@.len(),
            h == fnv1a_spec(bytes@.subrange(0, k as int)),
        decreases bytes@.len() - k,
    {
        assert(bytes@.subrange(0, k + 1).drop_last() =~= bytes@.subrange(0, k as int));
        h = (h ^ bytes[k] as u64).wrapping_mul(FNV_PRIME);
        k += 1;
    }
    assert(bytes@.subrange(0, bytes@.len() as int) =~= bytes@);
    h
}

/// A lowercase hexadecimal digit.
pub open spec fn hex_lower(n: nat) -> char {
    if n < 10 {
        ('0' as u32 + n) as char
    } else {
        ('a' as u32 + n - 10) as char
    }
}

/// The last `k` hexadecimal digits of `n`, most significant first.
pub open spec fn hex_digits(n: nat, k: nat) -> Seq<char>
    decreases k,
{
    if k == 0 {
        seq![]
    } else {
        hex_digits(n / 16, (k - 1) as nat) + seq![hex_lower(n % 16)]
    }
}

fn push_hex(out: &mut String, n: u64, k: usize)
    ensures
        final(out)@ == old(out)@ + hex_digits(n as nat, k as nat),
    decreases k,
{
    if k > 0 {
        push_hex(out, n / 16, k - 1);
        let d = (n % 16) as u8;
        let c = if d < 10 { (48u8 + d) as char } else { (87u8 + d) as char };
        assert(c == hex_lower((n % 16) as nat)) by {
            if d < 10 {
                assert(('0' as u32 + d) == (48 + d) as u32);
            } else {
                assert(('a' as u32 + d - 10) == (87 + d) as u32);
            }
        }
        push_char(out, c);
    }
}

/// Where the bundled script is served from: named by its content, so a
/// changed script is a new URL.
pub fn script_path(body: &str) -> (r: String)
    ensures
        r@ == "/vendor/app."@ + hex_digits(fnv1a_spec(encode_utf8(body@)) as nat, 16) + ".js"@,
{
    let mut out = String::new();
    push_str(&mut out, "/vendor/app.");
    push_hex(&mut out, fnv1a(body.as_bytes()), 16);
    push_str(&mut out, ".js");
    out
}

/// The stylesheet, minified.
pub fn minify(css: &str) -> (r: String)
    ensures
        r@ == crate::css::minify_spec(css@),
{
    crate::css::minify(css)
}

} // verus!
