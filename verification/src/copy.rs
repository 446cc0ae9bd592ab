//! Copies of values.

use crate::collections::keys_distinct;
use crate::collections::members_distinct;
use crate::float::lemma_float_same_is_equivalence;
use crate::laws::lemma_same_reflexive;
use crate::types::below;
use crate::types::children;
use crate::types::copied;
use crate::types::entry_found_in;
use crate::types::entry_reached_from;
use crate::types::found_in;
use crate::types::lemma_children_decrease;
use crate::types::reached_from;
use crate::types::same;
use crate::types::same_entry;
use crate::types::valid;
use crate::types::LispVal;
use vstd::prelude::*;

verus! {

/// Copies of the values of a vector, one for one.
fn duplicate_all(items: &Vec<LispVal>, Ghost(whole): Ghost<LispVal>) -> (copies: Vec<LispVal>)
    requires
        forall|i: int| 0 <= i < items@.len() ==> below(whole, #[trigger] items@[i]),
    ensures
        copied(items@, copies@),
    decreases whole, 0int,
{
    let mut copies: Vec<LispVal> = Vec::new();
    let mut at: usize = 0;
    while at < items.len()
        invariant
            at <= items@.len(),
            copies@.len() == at,
            forall|i: int| 0 <= i < items@.len() ==> below(whole, #[trigger] items@[i]),
            forall|i: int|
                0 <= i < at ==> same(#[trigger] items@[i], copies@[i]) && (valid(items@[i])
                    ==> valid(copies@[i])),
        decreases items@.len() - at,
    {
        let copy = items[at].duplicate();
        copies.push(copy);
        at = at + 1;
    }
    copies
}

impl LispVal {
    /// A copy of the value: the same value, and sound if this one is. Lists
    /// are shared, not copied.
    pub(crate) fn duplicate(&self) -> (copy: LispVal)
        ensures
            same(*self, copy),
            valid(*self) ==> valid(copy),
        decreases *self, 1int,
    {
        proof {
            lemma_same_reflexive(*self);
        }
        let copy = match self {
            LispVal::Nil => LispVal::Nil,
            LispVal::Bool(b) => LispVal::Bool(*b),
            LispVal::Str(s) => LispVal::Str(s.clone()),
            LispVal::Symbol(s) => LispVal::Symbol(s.clone()),
            LispVal::Keyword(s) => LispVal::Keyword(s.clone()),
            LispVal::Float(x) => LispVal::Float(*x),
            LispVal::Int(i) => LispVal::Int(*i),
            LispVal::Complex(re, im) => LispVal::Complex(*re, *im),
            LispVal::List(x) => LispVal::List(x.clone()),
            LispVal::Vector(x) => {
                proof {
                    assert forall|i: int| 0 <= i < x@.len() implies below(
                        *self,
                        #[trigger] x@[i],
                    ) by {
                        lemma_children_decrease(*self, i);
                    }
                }
                LispVal::Vector(duplicate_all(x, Ghost(*self)))
            },
            LispVal::MapVal(x) => LispVal::MapVal(x.duplicate()),
            LispVal::SetVal(x) => LispVal::SetVal(x.duplicate()),
            LispVal::Proc(p) => LispVal::Proc(p.duplicate()),
        };
        proof {
            lemma_copy(*self, copy);
        }
        copy
    }
}

/// Whether `copy` holds copies of what `v` holds: it is of the same kind,
/// with the same atom, name or keys, and what it holds are copies, in place.
spec fn copy_of(v: LispVal, copy: LispVal) -> bool {
    &&& copied(children(v), children(copy))
    &&& match (v, copy) {
        (LispVal::Nil, LispVal::Nil) => true,
        (LispVal::Bool(x), LispVal::Bool(y)) => x == y,
        (LispVal::Str(x), LispVal::Str(y)) => x@ == y@,
        (LispVal::Symbol(x), LispVal::Symbol(y)) => x@ == y@,
        (LispVal::Keyword(x), LispVal::Keyword(y)) => x@ == y@,
        (LispVal::Float(x), LispVal::Float(y)) => x == y,
        (LispVal::Int(x), LispVal::Int(y)) => x == y,
        (LispVal::Complex(xr, xi), LispVal::Complex(yr, yi)) => xr == yr && xi == yi,
        (LispVal::List(_), LispVal::List(_)) => true,
        (LispVal::Vector(_), LispVal::Vector(_)) => true,
        (LispVal::MapVal(x), LispVal::MapVal(y)) => forall|i: int|
            0 <= i < x@.len() ==> (#[trigger] x@[i]).0 == y@[i].0,
        (LispVal::SetVal(x), LispVal::SetVal(y)) => members_distinct(x@) ==> members_distinct(y@),
        (LispVal::Proc(p), LispVal::Proc(q)) => p.spec_name() == q.spec_name()
            && p.spec_params().len() == q.spec_params().len(),
        _ => false,
    }
}

/// A value that holds copies of what another holds is the same value as
/// that, and sound if that is.
proof fn lemma_copy(v: LispVal, copy: LispVal)
    requires
        copy_of(v, copy),
    ensures
        same(v, copy),
        valid(v) ==> valid(copy),
{
    let mine = children(v);
    let theirs = children(copy);
    assert forall|i: int| 0 <= i < theirs.len() && valid(v) implies valid(
        #[trigger] theirs[i],
    ) by {
        assert(same(mine[i], theirs[i]));
    }
    match (v, copy) {
        (LispVal::Float(x), LispVal::Float(y)) => {
            lemma_float_same_is_equivalence(x, x, x);
        },
        (LispVal::Complex(xr, xi), LispVal::Complex(yr, yi)) => {
            lemma_float_same_is_equivalence(xr, xr, xr);
            lemma_float_same_is_equivalence(xi, xi, xi);
        },
        (LispVal::MapVal(x), LispVal::MapVal(y)) => {
            assert forall|i: int| 0 <= i < x@.len() implies same_entry(
                #[trigger] x@[i],
                y@[i],
            ) by {
                assert(same(mine[i], theirs[i]));
            }
            assert(forall|i: int| 0 <= i < x@.len() ==> entry_found_in(#[trigger] x@[i], y@));
            assert forall|j: int| 0 <= j < y@.len() implies entry_reached_from(
                x,
                #[trigger] y@[j],
            ) by {
                assert(same_entry(x@[j], y@[j]));
            }
            if keys_distinct(x@) {
                assert forall|i: int, j: int| 0 <= i < j < y@.len() implies (#[trigger] y@[i]).0
                    != (#[trigger] y@[j]).0 by {
                    assert(x@[i].0 == y@[i].0);
                    assert(x@[j].0 == y@[j].0);
                }
            }
        },
        (LispVal::SetVal(x), LispVal::SetVal(y)) => {
            assert(forall|i: int| 0 <= i < x@.len() ==> found_in(#[trigger] x@[i], y@));
            assert forall|j: int| 0 <= j < y@.len() implies reached_from(x, #[trigger] y@[j]) by {
                assert(same(mine[j], theirs[j]));
            }
        },
        (LispVal::Proc(p), LispVal::Proc(q)) => {
            let n = p.spec_params().len() as int;
            assert forall|i: int| 0 <= i < p.spec_params().len() implies same(
                #[trigger] p.spec_params()[i],
                q.spec_params()[i],
            ) by {
                assert(same(mine[i], theirs[i]));
            }
            assert forall|i: int| 0 <= i < p.spec_body().len() implies same(
                #[trigger] p.spec_body()[i],
                q.spec_body()[i],
            ) by {
                assert(same(mine[i + n], theirs[i + n]));
            }
        },
        _ => {},
    }
}

impl Clone for LispVal {
    fn clone(&self) -> (copy: LispVal)
        ensures
            same(*self, copy),
            valid(*self) ==> valid(copy),
    {
        self.duplicate()
    }
}

} // verus!
