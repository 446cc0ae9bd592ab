//! The values of the language, and what it means for two of them to be
//! the same value.

use crate::collections::keys_distinct;
use crate::collections::members_distinct;
use crate::collections::LispMap;
use crate::collections::LispSet;
use crate::float::float_same;
use crate::float::LF64;
use crate::list::List;
use vstd::prelude::*;

verus! {

/// A list of values: data, or a form of code.
pub type LispList = List<LispVal>;

/// A value of the language.
#[derive(Debug)]
pub enum LispVal {
    /// The absence of a value.
    Nil,
    /// True or false.
    Bool(bool),
    /// A string.
    Str(String),
    /// A symbol, by its name.
    Symbol(String),
    /// A keyword, by its name without the colon.
    Keyword(String),
    /// A float.
    Float(LF64),
    /// An integer of 64 bits.
    Int(i64),
    /// A complex number: its real part, then its imaginary part.
    Complex(LF64, LF64),
    /// A list of values.
    List(LispList),
    /// A vector of values.
    Vector(Vec<LispVal>),
    /// A mapping from strings to values.
    MapVal(LispMap),
    /// A set of values.
    SetVal(LispSet),
    /// A procedure.
    Proc(Procedure),
}

/// A procedure that a program defined: its name, the symbols that name its
/// parameters, and the forms of its body, not yet evaluated. It holds no
/// environment.
#[derive(Debug)]
pub struct Procedure {
    name: String,
    params: LispList,
    body: LispList,
}

impl Procedure {
    /// The procedure's name.
    pub closed spec fn spec_name(self) -> Seq<char> {
        self.name@
    }

    /// The procedure's parameters, in order.
    pub closed spec fn spec_params(self) -> Seq<LispVal> {
        self.params@
    }

    /// The forms of the procedure's body, in order.
    pub closed spec fn spec_body(self) -> Seq<LispVal> {
        self.body@
    }

    /// A procedure is structurally larger than each of its parameters.
    pub proof fn lemma_params_decrease(self, i: int)
        requires
            0 <= i < self.spec_params().len(),
        ensures
            decreases_to!(self => self.spec_params()[i]),
    {
        self.params.lemma_elems_decrease(i);
    }

    /// A procedure is structurally larger than each form of its body.
    pub proof fn lemma_body_decreases(self, i: int)
        requires
            0 <= i < self.spec_body().len(),
        ensures
            decreases_to!(self => self.spec_body()[i]),
    {
        self.body.lemma_elems_decrease(i);
    }

    /// A procedure of the given name, parameters and body.
    pub fn new(name: String, params: LispList, body: LispList) -> (procedure: Procedure)
        ensures
            procedure.spec_name() == name@,
            procedure.spec_params() == params@,
            procedure.spec_body() == body@,
    {
        Procedure { name, params, body }
    }

    /// The procedure's name.
    pub fn name(&self) -> (name: &str)
        ensures
            name@ == self.spec_name(),
    {
        self.name.as_str()
    }

    /// Whether two procedures have the same name.
    pub(crate) fn same_name(&self, other: &Procedure) -> (r: bool)
        ensures
            r == (self.spec_name() == other.spec_name()),
    {
        self.name == other.name
    }

    /// The procedure's parameters.
    pub fn params(&self) -> (params: &LispList)
        ensures
            params@ == self.spec_params(),
    {
        &self.params
    }

    /// The forms of the procedure's body.
    pub fn body(&self) -> (body: &LispList)
        ensures
            body@ == self.spec_body(),
    {
        &self.body
    }
}

/// Whether two values are the same value: of the same kind, with the same
/// contents. Floats are compared as floats are, so every NaN is the same as
/// every NaN. Lists, vectors and the parts of a procedure are compared
/// element by element, in order. Two sets are the same when each member of
/// either is the same as a member of the other; two maps, when each entry of
/// either has its key and the same value in the other.
pub open spec fn same(a: LispVal, b: LispVal) -> bool
    decreases a, 0int,
{
    match (a, b) {
        (LispVal::Nil, LispVal::Nil) => true,
        (LispVal::Bool(x), LispVal::Bool(y)) => x == y,
        (LispVal::Str(x), LispVal::Str(y)) => x@ == y@,
        (LispVal::Symbol(x), LispVal::Symbol(y)) => x@ == y@,
        (LispVal::Keyword(x), LispVal::Keyword(y)) => x@ == y@,
        (LispVal::Float(x), LispVal::Float(y)) => float_same(x, y),
        (LispVal::Int(x), LispVal::Int(y)) => x == y,
        (LispVal::Complex(xr, xi), LispVal::Complex(yr, yi)) => float_same(xr, yr) && float_same(
            xi,
            yi,
        ),
        (LispVal::List(x), LispVal::List(y)) => {
            &&& x@.len() == y@.len()
            &&& forall|i: int|
                0 <= i < x@.len() ==> {
                    proof {
                        x.lemma_elems_decrease(i);
                    }
                    same(#[trigger] x@[i], y@[i])
                }
        },
        (LispVal::Vector(x), LispVal::Vector(y)) => {
            &&& x@.len() == y@.len()
            &&& forall|i: int| 0 <= i < x@.len() ==> same(#[trigger] x@[i], y@[i])
        },
        (LispVal::MapVal(x), LispVal::MapVal(y)) => {
            &&& forall|i: int|
                0 <= i < x@.len() ==> {
                    proof {
                        x.lemma_values_decrease(i);
                    }
                    entry_found_in(#[trigger] x@[i], y@)
                }
            &&& forall|j: int| 0 <= j < y@.len() ==> entry_reached_from(x, #[trigger] y@[j])
        },
        (LispVal::SetVal(x), LispVal::SetVal(y)) => {
            &&& forall|i: int|
                0 <= i < x@.len() ==> {
                    proof {
                        x.lemma_members_decrease(i);
                    }
                    found_in(#[trigger] x@[i], y@)
                }
            &&& forall|j: int| 0 <= j < y@.len() ==> reached_from(x, #[trigger] y@[j])
        },
        (LispVal::Proc(p), LispVal::Proc(q)) => {
            &&& p.spec_name() == q.spec_name()
            &&& p.spec_params().len() == q.spec_params().len()
            &&& forall|i: int|
                0 <= i < p.spec_params().len() ==> {
                    proof {
                        p.lemma_params_decrease(i);
                    }
                    same(#[trigger] p.spec_params()[i], q.spec_params()[i])
                }
            &&& p.spec_body().len() == q.spec_body().len()
            &&& forall|i: int|
                0 <= i < p.spec_body().len() ==> {
                    proof {
                        p.lemma_body_decreases(i);
                    }
                    same(#[trigger] p.spec_body()[i], q.spec_body()[i])
                }
        },
        _ => false,
    }
}

/// Whether `part` is structurally smaller than `whole`, so that a recursion
/// on `whole` may descend into `part`.
pub open spec fn below(whole: LispVal, part: LispVal) -> bool {
    decreases_to!(whole => part)
}

/// The values that a value holds directly: the elements of a list or of a
/// vector, the members of a set, the values of a map, and of a procedure the
/// parameters followed by the forms of the body. Other values hold none.
pub open spec fn children(v: LispVal) -> Seq<LispVal> {
    match v {
        LispVal::List(x) => x@,
        LispVal::Vector(x) => x@,
        LispVal::MapVal(x) => Seq::new(x@.len(), |i: int| x@[i].1),
        LispVal::SetVal(x) => x@,
        LispVal::Proc(p) => p.spec_params() + p.spec_body(),
        _ => Seq::empty(),
    }
}

/// A value is structurally larger than each value that it holds, so a
/// recursion on a value may descend into them.
pub proof fn lemma_children_decrease(v: LispVal, i: int)
    requires
        0 <= i < children(v).len(),
    ensures
        decreases_to!(v => children(v)[i]),
{
    match v {
        LispVal::List(x) => {
            x.lemma_elems_decrease(i);
        },
        LispVal::Vector(x) => {
        },
        LispVal::MapVal(x) => {
            x.lemma_values_decrease(i);
        },
        LispVal::SetVal(x) => {
            x.lemma_members_decrease(i);
        },
        LispVal::Proc(p) => {
            if i < p.spec_params().len() {
                p.lemma_params_decrease(i);
            } else {
                p.lemma_body_decreases(i - p.spec_params().len());
            }
        },
        _ => {},
    }
}

/// Whether a value is sound all the way down: no set in it has two members
/// that are the same, and no map in it has a key twice. A value is sound if
/// it was built from sound values by the variants of `LispVal`, by `cons`,
/// and by `new` and `insert` of sets and maps.
pub open spec fn valid(v: LispVal) -> bool
    decreases v,
{
    &&& forall|i: int|
        0 <= i < children(v).len() ==> {
            proof {
                lemma_children_decrease(v, i);
            }
            valid(#[trigger] children(v)[i])
        }
    &&& (v matches LispVal::SetVal(x) ==> members_distinct(x@))
    &&& (v matches LispVal::MapVal(x) ==> keys_distinct(x@))
}

/// Whether `copies` are copies of `items`, one for one: each is the same
/// value as what it copies, and sound if that is.
pub open spec fn copied(items: Seq<LispVal>, copies: Seq<LispVal>) -> bool {
    &&& items.len() == copies.len()
    &&& forall|i: int|
        0 <= i < items.len() ==> same(#[trigger] items[i], copies[i]) && (valid(items[i])
            ==> valid(copies[i]))
}

/// Whether `v` is the same as one of `others`.
pub open spec fn found_in(v: LispVal, others: Seq<LispVal>) -> bool
    decreases v, 1int,
{
    exists|j: int| 0 <= j < others.len() && same(v, #[trigger] others[j])
}

/// Whether a member of `set` is the same as `v`.
pub open spec fn reached_from(set: LispSet, v: LispVal) -> bool
    decreases set, 1int,
{
    exists|i: int|
        0 <= i < set@.len() && {
            proof {
                set.lemma_members_decrease(i);
            }
            same(#[trigger] set@[i], v)
        }
}

/// Whether two entries of maps have the same key and the same value.
pub open spec fn same_entry(a: (Seq<char>, LispVal), b: (Seq<char>, LispVal)) -> bool
    decreases a.1, 1int,
{
    a.0 == b.0 && same(a.1, b.1)
}

/// Whether `entry` has its key and the same value among `others`.
pub open spec fn entry_found_in(
    entry: (Seq<char>, LispVal),
    others: Seq<(Seq<char>, LispVal)>,
) -> bool
    decreases entry.1, 2int,
{
    exists|j: int| 0 <= j < others.len() && same_entry(entry, #[trigger] others[j])
}

/// Whether an entry of `map` has the key of `entry` and the same value.
pub open spec fn entry_reached_from(map: LispMap, entry: (Seq<char>, LispVal)) -> bool
    decreases map, 2int,
{
    exists|i: int|
        0 <= i < map@.len() && {
            proof {
                map.lemma_values_decrease(i);
            }
            same_entry(#[trigger] map@[i], entry)
        }
}

impl Procedure {
    /// A copy of the procedure, which shares its parameters and its body.
    pub(crate) fn duplicate(&self) -> (copy: Procedure)
        ensures
            copy.spec_name() == self.spec_name(),
            copy.spec_params() == self.spec_params(),
            copy.spec_body() == self.spec_body(),
    {
        Procedure { name: self.name.clone(), params: self.params.clone(), body: self.body.clone() }
    }
}

impl Clone for Procedure {
    fn clone(&self) -> (copy: Procedure)
        ensures
            copy.spec_name() == self.spec_name(),
            copy.spec_params() == self.spec_params(),
            copy.spec_body() == self.spec_body(),
    {
        self.duplicate()
    }
}

} // verus!
