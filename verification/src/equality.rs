//! Deciding whether two values are the same value.

use crate::collections::entry_views;
use crate::collections::LispMap;
use crate::collections::LispSet;
use crate::list::List;
use crate::types::entry_found_in;
use crate::types::entry_reached_from;
use crate::types::found_in;
use crate::types::reached_from;
use crate::types::same;
use crate::types::same_entry;
use crate::types::below;
use crate::types::children;
use crate::types::lemma_children_decrease;
use crate::types::LispVal;
use vstd::prelude::*;
use vstd::std_specs::cmp::PartialEqSpecImpl;

verus! {

/// Whether two lists are as long as each other and hold the same values,
/// place by place.
fn same_in_order(x: &List<LispVal>, y: &List<LispVal>, Ghost(whole): Ghost<LispVal>) -> (all: bool)
    requires
        forall|i: int| 0 <= i < x@.len() ==> below(whole, #[trigger] x@[i]),
    ensures
        all == (x@.len() == y@.len() && forall|i: int|
            0 <= i < x@.len() ==> same(#[trigger] x@[i], y@[i])),
    decreases whole, 0int,
{
    let mut left = x.iter();
    let mut right = y.iter();
    let ghost mut done: int = 0;
    loop
        invariant
            0 <= done <= x@.len(),
            done <= y@.len(),
            left@ == x@.skip(done),
            right@ == y@.skip(done),
            forall|i: int| 0 <= i < x@.len() ==> below(whole, #[trigger] x@[i]),
            forall|i: int| 0 <= i < done ==> same(#[trigger] x@[i], y@[i]),
        decreases x@.len() - done,
    {
        match (left.next(), right.next()) {
            (Some(a), Some(b)) => {
                if !same_value(a, b) {
                    return false;
                }
                proof {
                    done = done + 1;
                }
            },
            (None, None) => {
                return true;
            },
            _ => {
                return false;
            },
        }
    }
}

/// Whether two vectors are as long as each other and hold the same values,
/// place by place.
fn same_vectors(x: &Vec<LispVal>, y: &Vec<LispVal>, Ghost(whole): Ghost<LispVal>) -> (all: bool)
    requires
        forall|i: int| 0 <= i < x@.len() ==> below(whole, #[trigger] x@[i]),
    ensures
        all == (x@.len() == y@.len() && forall|i: int|
            0 <= i < x@.len() ==> same(#[trigger] x@[i], y@[i])),
    decreases whole, 0int,
{
    if x.len() != y.len() {
        return false;
    }
    let mut at: usize = 0;
    while at < x.len()
        invariant
            at <= x@.len() == y@.len(),
            forall|i: int| 0 <= i < x@.len() ==> below(whole, #[trigger] x@[i]),
            forall|i: int| 0 <= i < at ==> same(#[trigger] x@[i], y@[i]),
        decreases x@.len() - at,
    {
        if !same_value(&x[at], &y[at]) {
            return false;
        }
        at = at + 1;
    }
    true
}

/// Whether `v` is the same as one of `others`.
fn is_found_in(v: &LispVal, others: &Vec<LispVal>) -> (found: bool)
    ensures
        found == found_in(*v, others@),
    decreases *v, 4int,
{
    let mut at: usize = 0;
    while at < others.len()
        invariant
            at <= others@.len(),
            forall|j: int| 0 <= j < at ==> !same(*v, #[trigger] others@[j]),
        decreases others@.len() - at,
    {
        if same_value(v, &others[at]) {
            return true;
        }
        at = at + 1;
    }
    false
}

/// Whether a member of `set` is the same as `v`.
fn is_reached_from(set: &LispSet, v: &LispVal, Ghost(whole): Ghost<LispVal>) -> (found: bool)
    requires
        forall|i: int| 0 <= i < set@.len() ==> below(whole, #[trigger] set@[i]),
    ensures
        found == reached_from(*set, *v),
    decreases whole, 0int,
{
    let members = set.members();
    let mut at: usize = 0;
    while at < members.len()
        invariant
            members@ == set@,
            at <= members@.len(),
            forall|i: int| 0 <= i < set@.len() ==> below(whole, #[trigger] set@[i]),
            forall|i: int| 0 <= i < at ==> !same(#[trigger] set@[i], *v),
        decreases members@.len() - at,
    {
        if same_value(&members[at], v) {
            return true;
        }
        at = at + 1;
    }
    false
}

/// Whether each member of either set is the same as a member of the other.
fn same_sets(x: &LispSet, y: &LispSet, Ghost(whole): Ghost<LispVal>) -> (all: bool)
    requires
        forall|i: int| 0 <= i < x@.len() ==> below(whole, #[trigger] x@[i]),
    ensures
        all == {
            &&& forall|i: int| 0 <= i < x@.len() ==> found_in(#[trigger] x@[i], y@)
            &&& forall|j: int| 0 <= j < y@.len() ==> reached_from(*x, #[trigger] y@[j])
        },
    decreases whole, 1int,
{
    let ours = x.members();
    let theirs = y.members();
    let mut at: usize = 0;
    while at < ours.len()
        invariant
            ours@ == x@,
            theirs@ == y@,
            at <= ours@.len(),
            forall|i: int| 0 <= i < x@.len() ==> below(whole, #[trigger] x@[i]),
            forall|i: int| 0 <= i < at ==> found_in(#[trigger] x@[i], y@),
        decreases ours@.len() - at,
    {
        if !is_found_in(&ours[at], theirs) {
            return false;
        }
        at = at + 1;
    }
    let mut at: usize = 0;
    while at < theirs.len()
        invariant
            theirs@ == y@,
            at <= theirs@.len(),
            forall|i: int| 0 <= i < x@.len() ==> below(whole, #[trigger] x@[i]),
            forall|j: int| 0 <= j < at ==> reached_from(*x, #[trigger] y@[j]),
        decreases theirs@.len() - at,
    {
        if !is_reached_from(x, &theirs[at], Ghost(whole)) {
            return false;
        }
        at = at + 1;
    }
    true
}

/// Whether two entries have the same key and the same value.
fn is_same_entry(a: &(String, LispVal), b: &(String, LispVal)) -> (r: bool)
    ensures
        r == same_entry((a.0@, a.1), (b.0@, b.1)),
    decreases a.1, 4int,
{
    a.0 == b.0 && same_value(&a.1, &b.1)
}

/// Whether `entry` has its key and the same value among `others`.
fn is_entry_found_in(entry: &(String, LispVal), others: &Vec<(String, LispVal)>) -> (found: bool)
    ensures
        found == entry_found_in((entry.0@, entry.1), entry_views(others@)),
    decreases entry.1, 5int,
{
    let ghost theirs = entry_views(others@);
    let mut at: usize = 0;
    while at < others.len()
        invariant
            theirs == entry_views(others@),
            at <= others@.len(),
            forall|j: int|
                0 <= j < at ==> !same_entry((entry.0@, entry.1), #[trigger] theirs[j]),
        decreases others@.len() - at,
    {
        if is_same_entry(entry, &others[at]) {
            assert(same_entry((entry.0@, entry.1), theirs[at as int]));
            return true;
        }
        at = at + 1;
    }
    false
}

/// Whether an entry of `map` has the key of `entry` and the same value.
fn is_entry_reached_from(
    map: &LispMap,
    entry: &(String, LispVal),
    Ghost(whole): Ghost<LispVal>,
) -> (found: bool)
    requires
        forall|i: int| 0 <= i < map@.len() ==> below(whole, #[trigger] map@[i].1),
    ensures
        found == entry_reached_from(*map, (entry.0@, entry.1)),
    decreases whole, 0int,
{
    let entries = map.entries();
    let mut at: usize = 0;
    while at < entries.len()
        invariant
            entry_views(entries@) == map@,
            at <= entries@.len(),
            forall|i: int| 0 <= i < map@.len() ==> below(whole, #[trigger] map@[i].1),
            forall|i: int|
                0 <= i < at ==> !same_entry(#[trigger] map@[i], (entry.0@, entry.1)),
        decreases entries@.len() - at,
    {
        assert(below(whole, map@[at as int].1));
        if is_same_entry(&entries[at], entry) {
            return true;
        }
        at = at + 1;
    }
    false
}

/// Whether each entry of either map has its key and the same value in the
/// other.
fn same_maps(x: &LispMap, y: &LispMap, Ghost(whole): Ghost<LispVal>) -> (all: bool)
    requires
        forall|i: int| 0 <= i < x@.len() ==> below(whole, #[trigger] x@[i].1),
    ensures
        all == {
            &&& forall|i: int| 0 <= i < x@.len() ==> entry_found_in(#[trigger] x@[i], y@)
            &&& forall|j: int| 0 <= j < y@.len() ==> entry_reached_from(*x, #[trigger] y@[j])
        },
    decreases whole, 1int,
{
    let ours = x.entries();
    let theirs = y.entries();
    let mut at: usize = 0;
    while at < ours.len()
        invariant
            entry_views(ours@) == x@,
            entry_views(theirs@) == y@,
            at <= ours@.len(),
            forall|i: int| 0 <= i < x@.len() ==> below(whole, #[trigger] x@[i].1),
            forall|i: int| 0 <= i < at ==> entry_found_in(#[trigger] x@[i], y@),
        decreases ours@.len() - at,
    {
        assert(below(whole, x@[at as int].1));
        if !is_entry_found_in(&ours[at], theirs) {
            return false;
        }
        at = at + 1;
    }
    let mut at: usize = 0;
    while at < theirs.len()
        invariant
            entry_views(theirs@) == y@,
            at <= theirs@.len(),
            forall|i: int| 0 <= i < x@.len() ==> below(whole, #[trigger] x@[i].1),
            forall|j: int| 0 <= j < at ==> entry_reached_from(*x, #[trigger] y@[j]),
        decreases theirs@.len() - at,
    {
        assert(y@[at as int] == (theirs@[at as int].0@, theirs@[at as int].1));
        if !is_entry_reached_from(x, &theirs[at], Ghost(whole)) {
            return false;
        }
        at = at + 1;
    }
    true
}

/// Whether two values are the same value.
fn same_value(a: &LispVal, b: &LispVal) -> (r: bool)
    ensures
        r == same(*a, *b),
    decreases *a, 3int,
{
    proof {
        assert forall|i: int| 0 <= i < children(*a).len() implies below(
            *a,
            #[trigger] children(*a)[i],
        ) by {
            lemma_children_decrease(*a, i);
        }
    }
    match (a, b) {
        (LispVal::Nil, LispVal::Nil) => true,
        (LispVal::Bool(x), LispVal::Bool(y)) => *x == *y,
        (LispVal::Str(x), LispVal::Str(y)) => *x == *y,
        (LispVal::Symbol(x), LispVal::Symbol(y)) => *x == *y,
        (LispVal::Keyword(x), LispVal::Keyword(y)) => *x == *y,
        (LispVal::Float(x), LispVal::Float(y)) => *x == *y,
        (LispVal::Int(x), LispVal::Int(y)) => *x == *y,
        (LispVal::Complex(xr, xi), LispVal::Complex(yr, yi)) => *xr == *yr && *xi == *yi,
        (LispVal::List(x), LispVal::List(y)) => {
            assert(children(*a) == x@);
            same_in_order(x, y, Ghost(*a))
        },
        (LispVal::Vector(x), LispVal::Vector(y)) => {
            assert(children(*a) == x@);
            same_vectors(x, y, Ghost(*a))
        },
        (LispVal::MapVal(x), LispVal::MapVal(y)) => {
            proof {
                assert forall|i: int| 0 <= i < x@.len() implies below(*a, #[trigger] x@[i].1) by {
                    assert(x@[i].1 == children(*a)[i]);
                }
            }
            same_maps(x, y, Ghost(*a))
        },
        (LispVal::SetVal(x), LispVal::SetVal(y)) => {
            assert(children(*a) == x@);
            same_sets(x, y, Ghost(*a))
        },
        (LispVal::Proc(p), LispVal::Proc(q)) => {
            proof {
                assert forall|i: int| 0 <= i < p.spec_params().len() implies below(
                    *a,
                    #[trigger] p.spec_params()[i],
                ) by {
                    assert(p.spec_params()[i] == children(*a)[i]);
                }
                assert forall|i: int| 0 <= i < p.spec_body().len() implies below(
                    *a,
                    #[trigger] p.spec_body()[i],
                ) by {
                    assert(p.spec_body()[i] == children(*a)[i + p.spec_params().len()]);
                }
            }
            p.same_name(q) && same_in_order(p.params(), q.params(), Ghost(*a)) && same_in_order(
                p.body(),
                q.body(),
                Ghost(*a),
            )
        },
        _ => false,
    }
}

impl PartialEq for LispVal {
    fn eq(&self, other: &LispVal) -> (r: bool) {
        same_value(self, other)
    }
}

impl PartialEqSpecImpl for LispVal {
    open spec fn obeys_eq_spec() -> bool {
        true
    }

    open spec fn eq_spec(&self, other: &LispVal) -> bool {
        same(*self, *other)
    }
}

impl Eq for LispVal {

}

} // verus!
