//! Series of posts that belong together.
use vstd::prelude::*;

use crate::text::str_eq;

verus! {

#[derive(Debug, Clone, Copy)]
pub struct Thread {
    pub id: &'static str,
    pub title: &'static str,
    pub description: &'static str,
}

/// Every thread, as `(id, title, description)`.
pub open spec fn threads_spec() -> Seq<(Seq<char>, Seq<char>, Seq<char>)> {
    seq![
        (
            "isolated-env"@,
            "isolated work environment"@,
            "Building a disposable, isolated Linux environment and to work."@,
        ),
    ]
}

/// The thread with the id `id`, if there is one.
pub fn get_thread(id: &str) -> (r: Option<Thread>)
    ensures
        match r {
            Some(t) => exists|k: int| 0 <= k < threads_spec().len() && threads_spec()[k] == (t.id@, t.title@, t.description@) && t.id@ == id@,
            None => forall|k: int| 0 <= k < threads_spec().len() ==> threads_spec()[k].0 != id@,
        },
{
    let t = Thread {
        id: "isolated-env",
        title: "isolated work environment",
        description: "Building a disposable, isolated Linux environment and to work.",
    };
    if str_eq(t.id, id) {
        assert(threads_spec()[0] == (t.id@, t.title@, t.description@));
        Some(t)
    } else {
        None
    }
}

} // verus!
