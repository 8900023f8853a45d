//! The site's fixed facts, and what differs between a production and a
//! development build.
use vstd::prelude::*;

verus! {

pub const TITLE: &'static str = "vitor s. almeida";

pub const WEBSITE: &'static str = "https://vitorsalmeida.com";

pub const DESCRIPTION: &'static str = "A dedicated space to share part of me. You will find some articles, essays and some links";

pub const AUTHOR: &'static str = "vitor s. almeida";

pub const BIRTH_YEAR: i32 = 2004;

#[derive(Clone, Copy, Debug)]
pub struct Ctx {
    pub year: i32,
    pub live_reload: bool,
    pub og_images: bool,
}

impl Ctx {
    /// A production build: no live reload, and the flag for social images set.
    pub fn prod(year: i32) -> (r: Self)
        ensures
            r.year == year,
            !r.live_reload,
            r.og_images,
    {
        Ctx { year, live_reload: false, og_images: true }
    }

    /// A development build: live reload on, and the flag for social images clear.
    pub fn dev(year: i32) -> (r: Self)
        ensures
            r.year == year,
            r.live_reload,
            !r.og_images,
    {
        Ctx { year, live_reload: true, og_images: false }
    }
}

} // verus!
