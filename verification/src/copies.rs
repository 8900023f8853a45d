//! Copies of values, and what a copy keeps.
use vstd::prelude::*;

use crate::fill::Value;

verus! {

/// `a` and `b` hold the same value: the same flag, number or text, and lists
/// and maps whose items hold the same values, under the same keys.
pub open spec fn same_value<'a, 'b>(a: Value<'a>, b: Value<'b>) -> bool
    decreases a,
{
    match a {
        Value::Nil => b is Nil,
        Value::Bool(x) => b matches Value::Bool(y) && x == y,
        Value::Num(x) => b matches Value::Num(y) && x == y,
        Value::Text(x) => b matches Value::Text(y) && x@ == y@,
        Value::Html(x) => b matches Value::Html(y) && x@ == y@,
        Value::List(xs) => b matches Value::List(ys) && xs@.len() == ys@.len() && forall|j: int|
            0 <= j < xs@.len() ==> same_value(#[trigger] xs@[j], ys@[j]),
        Value::Dict(xs) => b matches Value::Dict(ys) && xs@.len() == ys@.len() && forall|j: int|
            0 <= j < xs@.len() ==> (#[trigger] xs@[j]).0@ == ys@[j].0@ && same_value(xs@[j].1, ys@[j].1),
    }
}

/// `b` holds the entries of `a`, in order: the same keys, and the same values.
pub open spec fn same_entries<'a, 'b>(a: Seq<(&'a str, Value<'a>)>, b: Seq<(&'b str, Value<'b>)>) -> bool {
    a.len() == b.len() && forall|j: int|
        0 <= j < a.len() ==> (#[trigger] a[j]).0@ == b[j].0@ && same_value(a[j].1, b[j].1)
}

impl<'a> Value<'a> {
    /// A copy of the value, field by field.
    pub(crate) fn duplicate(&self) -> (r: Value<'a>)
        ensures
            same_value(*self, r),
        decreases self,
    {
        match self {
            Value::Nil => Value::Nil,
            Value::Bool(b) => Value::Bool(*b),
            Value::Num(n) => Value::Num(*n),
            Value::Text(t) => Value::Text(t.clone()),
            Value::Html(t) => Value::Html(t.clone()),
            Value::List(items) => {
                let mut out: Vec<Value<'a>> = Vec::new();
                let mut k: usize = 0;
                while k < items.len()
                    invariant
                        k <= items@.len(),
                        *self == Value::List(*items),
                        out@.len() == k,
                        forall|j: int| 0 <= j < k ==> same_value(#[trigger] items@[j], out@[j]),
                    decreases items@.len() - k,
                {
                    proof {
                        assert(decreases_to!(*self => (*self)->List_0));
                        assert(decreases_to!((*self)->List_0 => (*self)->List_0@));
                        assert(decreases_to!(items@ => items@[k as int]));
                        assert(decreases_to!(*self => items@[k as int]));
                    }
                    out.push(items[k].duplicate());
                    k += 1;
                }
                Value::List(out)
            },
            Value::Dict(entries) => {
                let mut out: Vec<(&'a str, Value<'a>)> = Vec::new();
                let mut k: usize = 0;
                while k < entries.len()
                    invariant
                        k <= entries@.len(),
                        *self == Value::Dict(*entries),
                        out@.len() == k,
                        forall|j: int|
                            0 <= j < k ==> (#[trigger] entries@[j]).0@ == out@[j].0@ && same_value(
                                entries@[j].1,
                                out@[j].1,
                            ),
                    decreases entries@.len() - k,
                {
                    proof {
                        assert(decreases_to!(*self => (*self)->Dict_0));
                        assert(decreases_to!((*self)->Dict_0 => (*self)->Dict_0@));
                        assert(decreases_to!(entries@ => entries@[k as int]));
                        assert(decreases_to!(entries@[k as int] => entries@[k as int].1));
                        assert(decreases_to!(*self => entries@[k as int].1));
                    }
                    out.push((entries[k].0, entries[k].1.duplicate()));
                    k += 1;
                }
                Value::Dict(out)
            },
        }
    }
}

} // verus!
