//! A small static site generator: the pieces of it that compute.
use vstd::prelude::*;

pub mod assets;
pub mod bytes;
pub mod check;
pub mod clock;
pub mod config;
pub mod content;
pub mod copies;
pub mod css;
pub mod dev;
pub mod date;
pub mod feeds;
pub mod fill;
pub mod frontmatter;
pub mod highlight;
pub mod model;
pub mod passthrough;
pub mod rejoin;
pub mod render;
pub mod routes;
pub mod significant;
pub mod site;
pub mod html;
pub mod isodate;
pub mod markdown;
pub mod text;
pub mod threads;
pub mod untag;
pub mod untouched;
pub mod weekdays;
pub mod xml;

pub use config::{AUTHOR, BIRTH_YEAR, DESCRIPTION, TITLE, WEBSITE};

verus! {

/// What a build of the whole site is asked for.
#[derive(Clone, Copy, Debug)]
pub struct Ctx {
    pub year: i32,
    pub live_reload: bool,
    pub drafts: bool,
}

impl Ctx {
    /// A production build: no live reload, and drafts left out.
    pub fn prod(year: i32) -> (r: Self)
        ensures
            r.year == year,
            !r.live_reload,
            !r.drafts,
    {
        Ctx { year, live_reload: false, drafts: false }
    }

    /// A development build: live reload on, and drafts shown.
    pub fn dev(year: i32) -> (r: Self)
        ensures
            r.year == year,
            r.live_reload,
            r.drafts,
    {
        Ctx { year, live_reload: true, drafts: true }
    }
}

} // verus!
