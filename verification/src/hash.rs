//! The hash of a value: a number that is the same for values that are the
//! same, whatever the order in which a set or a map was filled and whichever
//! NaN or zero a float holds.

use crate::collections::entry_views;
use crate::float::canonical_bits;
use crate::list::List;
use crate::types::children;
use crate::types::lemma_children_decrease;
use crate::types::below;
use crate::types::LispVal;
use vstd::prelude::*;
use vstd::utf8::encode_utf8;

verus! {

/// Where a fold over a sequence starts.
pub const SEED: u64 = 0xcbf2_9ce4_8422_2325;

/// The multiplier by which a fold moves on.
pub const STEP: u64 = 0x0000_0100_0000_01b3;

/// One step of a fold that minds the order: the hash so far, moved on and
/// taken together with the next code. All arithmetic wraps.
#[verifier::opaque]
pub open spec fn mix(so_far: u64, code: u64) -> u64 {
    so_far.wrapping_mul(STEP).wrapping_add(code)
}

/// The codes folded in their order, from `SEED`.
pub open spec fn fold_ordered(codes: Seq<u64>) -> u64
    decreases codes.len(),
{
    if codes.len() == 0 {
        SEED
    } else {
        mix(fold_ordered(codes.drop_last()), codes.last())
    }
}

/// The codes taken together whatever their order: their wrapping sum.
pub open spec fn fold_unordered(codes: Seq<u64>) -> u64
    decreases codes.len(),
{
    if codes.len() == 0 {
        0
    } else {
        fold_unordered(codes.drop_last()).wrapping_add(codes.last())
    }
}

/// The code of a string: its UTF-8 bytes, folded in order.
pub open spec fn text_code(text: Seq<char>) -> u64 {
    fold_ordered(encode_utf8(text).map_values(|byte: u8| byte as u64))
}

/// The code of an integer, one for each: twice a number that is not
/// negative, and for a negative one the odd number before twice its distance
/// from zero.
pub open spec fn int_code(i: i64) -> u64 {
    if i >= 0 {
        (2 * i) as u64
    } else {
        (-2 * i - 1) as u64
    }
}

/// The hash of a value of the kind numbered `kind` whose contents have the
/// code `code`.
pub open spec fn tagged(kind: u64, code: u64) -> u64 {
    mix(mix(SEED, kind), code)
}

/// The code of an entry of a map, from its key and the hash of its value.
pub open spec fn entry_code(key: Seq<char>, value_hash: u64) -> u64 {
    mix(text_code(key), value_hash)
}

/// The hashes of the values that `v` holds, one for one.
pub open spec fn child_hashes(v: LispVal) -> Seq<u64>
    decreases v, 0int,
{
    Seq::new(
        children(v).len(),
        |i: int|
            if 0 <= i < children(v).len() {
                proof {
                    lemma_children_decrease(v, i);
                }
                hash_of(children(v)[i])
            } else {
                0
            },
    )
}

/// The hash of a value. Values that are the same have the same hash;
/// values that differ may. Lists, vectors and the parts of a procedure are
/// folded in their order; the members of a set and the entries of a map are
/// taken together whatever their order.
pub open spec fn hash_of(v: LispVal) -> u64
    decreases v, 1int,
{
    match v {
        LispVal::Nil => tagged(0, 0),
        LispVal::Bool(b) => tagged(
            1,
            if b {
                1
            } else {
                0
            },
        ),
        LispVal::Str(s) => tagged(2, text_code(s@)),
        LispVal::Symbol(s) => tagged(3, text_code(s@)),
        LispVal::Keyword(s) => tagged(4, text_code(s@)),
        LispVal::Float(x) => tagged(5, canonical_bits(x.0)),
        LispVal::Int(i) => tagged(6, int_code(i)),
        LispVal::Complex(re, im) => tagged(7, mix(canonical_bits(re.0), canonical_bits(im.0))),
        LispVal::List(x) => tagged(8, fold_ordered(child_hashes(v))),
        LispVal::Vector(x) => tagged(9, fold_ordered(child_hashes(v))),
        LispVal::MapVal(x) => tagged(10, fold_unordered(entry_codes(x@, child_hashes(v)))),
        LispVal::SetVal(x) => tagged(11, fold_unordered(child_hashes(v))),
        LispVal::Proc(p) => tagged(
            12,
            mix(
                mix(
                    text_code(p.spec_name()),
                    fold_ordered(child_hashes(v).take(p.spec_params().len() as int)),
                ),
                fold_ordered(child_hashes(v).skip(p.spec_params().len() as int)),
            ),
        ),
    }
}

/// The codes of the entries of a map, from the entries and the hashes of
/// their values, one for one.
pub open spec fn entry_codes(entries: Seq<(Seq<char>, LispVal)>, value_hashes: Seq<u64>) -> Seq<
    u64,
> {
    Seq::new(entries.len(), |i: int| entry_code(entries[i].0, value_hashes[i]))
}

/// The hashes of some values, one for one.
pub open spec fn hashes(items: Seq<LispVal>) -> Seq<u64> {
    Seq::new(items.len(), |i: int| hash_of(items[i]))
}

/// The hashes of the values that a value holds are the hashes of those
/// values.
pub proof fn lemma_child_hashes(v: LispVal)
    ensures
        child_hashes(v) == hashes(children(v)),
{
}

/// One step of a fold that minds the order.
fn mix_code(so_far: u64, code: u64) -> (mixed: u64)
    ensures
        mixed == mix(so_far, code),
{
    reveal(mix);
    so_far.wrapping_mul(STEP).wrapping_add(code)
}

/// The hash of a value of a kind, from the code of its contents.
fn tag_code(kind: u64, code: u64) -> (hash: u64)
    ensures
        hash == tagged(kind, code),
{
    mix_code(mix_code(SEED, kind), code)
}

/// The code of a string.
fn text_hash(text: &str) -> (code: u64)
    ensures
        code == text_code(text@),
{
    let bytes = text.as_bytes();
    let ghost codes = encode_utf8(text@).map_values(|byte: u8| byte as u64);
    let mut code = SEED;
    let mut at: usize = 0;
    while at < bytes.len()
        invariant
            bytes@ == encode_utf8(text@),
            codes == encode_utf8(text@).map_values(|byte: u8| byte as u64),
            at <= bytes@.len(),
            code == fold_ordered(codes.take(at as int)),
        decreases bytes@.len() - at,
    {
        assert(codes.take(at + 1).drop_last() =~= codes.take(at as int));
        code = mix_code(code, bytes[at] as u64);
        at = at + 1;
    }
    assert(codes.take(at as int) =~= codes);
    code
}

/// The code of an integer.
fn int_hash(i: i64) -> (code: u64)
    ensures
        code == int_code(i),
{
    if i >= 0 {
        2 * (i as u64)
    } else {
        2 * ((-(i + 1)) as u64) + 1
    }
}

/// The hashes of the elements of a list, folded in order.
fn hash_list(x: &List<LispVal>, Ghost(whole): Ghost<LispVal>) -> (hash: u64)
    requires
        forall|i: int| 0 <= i < x@.len() ==> below(whole, #[trigger] x@[i]),
    ensures
        hash == fold_ordered(hashes(x@)),
    decreases whole, 0int,
{
    let mut walk = x.iter();
    let mut hash = SEED;
    let ghost mut done: int = 0;
    loop
        invariant
            0 <= done <= x@.len(),
            walk@ == x@.skip(done),
            forall|i: int| 0 <= i < x@.len() ==> below(whole, #[trigger] x@[i]),
            hash == fold_ordered(hashes(x@).take(done)),
        decreases x@.len() - done,
    {
        match walk.next() {
            Some(elem) => {
                let code = elem.hash_code();
                hash = mix_code(hash, code);
                proof {
                    assert(hashes(x@).take(done + 1).drop_last() =~= hashes(x@).take(done));
                    done = done + 1;
                }
            },
            None => {
                assert(hashes(x@).take(done) =~= hashes(x@));
                return hash;
            },
        }
    }
}

/// The hashes of the elements of a vector, folded in order.
fn hash_vector(x: &Vec<LispVal>, Ghost(whole): Ghost<LispVal>) -> (hash: u64)
    requires
        forall|i: int| 0 <= i < x@.len() ==> below(whole, #[trigger] x@[i]),
    ensures
        hash == fold_ordered(hashes(x@)),
    decreases whole, 0int,
{
    let mut hash = SEED;
    let mut at: usize = 0;
    while at < x.len()
        invariant
            at <= x@.len(),
            forall|i: int| 0 <= i < x@.len() ==> below(whole, #[trigger] x@[i]),
            hash == fold_ordered(hashes(x@).take(at as int)),
        decreases x@.len() - at,
    {
        assert(hashes(x@).take(at + 1).drop_last() =~= hashes(x@).take(at as int));
        let code = x[at].hash_code();
        hash = mix_code(hash, code);
        at = at + 1;
    }
    assert(hashes(x@).take(at as int) =~= hashes(x@));
    hash
}

/// The hashes of some values, taken together whatever their order.
fn hash_members(x: &Vec<LispVal>, Ghost(whole): Ghost<LispVal>) -> (hash: u64)
    requires
        forall|i: int| 0 <= i < x@.len() ==> below(whole, #[trigger] x@[i]),
    ensures
        hash == fold_unordered(hashes(x@)),
    decreases whole, 0int,
{
    let mut hash: u64 = 0;
    let mut at: usize = 0;
    while at < x.len()
        invariant
            at <= x@.len(),
            forall|i: int| 0 <= i < x@.len() ==> below(whole, #[trigger] x@[i]),
            hash == fold_unordered(hashes(x@).take(at as int)),
        decreases x@.len() - at,
    {
        assert(hashes(x@).take(at + 1).drop_last() =~= hashes(x@).take(at as int));
        let code = x[at].hash_code();
        hash = hash.wrapping_add(code);
        at = at + 1;
    }
    assert(hashes(x@).take(at as int) =~= hashes(x@));
    hash
}

/// The codes of some entries, taken together whatever their order.
fn hash_entries(x: &Vec<(String, LispVal)>, Ghost(whole): Ghost<LispVal>) -> (hash: u64)
    requires
        forall|i: int| 0 <= i < x@.len() ==> below(whole, (#[trigger] x@[i]).1),
    ensures
        hash == fold_unordered(
            entry_codes(
                entry_views(x@),
                hashes(Seq::new(x@.len(), |i: int| entry_views(x@)[i].1)),
            ),
        ),
    decreases whole, 0int,
{
    let ghost codes = entry_codes(
        entry_views(x@),
        hashes(Seq::new(x@.len(), |i: int| entry_views(x@)[i].1)),
    );
    let mut hash: u64 = 0;
    let mut at: usize = 0;
    while at < x.len()
        invariant
            at <= x@.len(),
            codes == entry_codes(
                entry_views(x@),
                hashes(Seq::new(x@.len(), |i: int| entry_views(x@)[i].1)),
            ),
            forall|i: int| 0 <= i < x@.len() ==> below(whole, (#[trigger] x@[i]).1),
            hash == fold_unordered(codes.take(at as int)),
        decreases x@.len() - at,
    {
        assert(codes.take(at + 1).drop_last() =~= codes.take(at as int));
        let key_code = text_hash(x[at].0.as_str());
        let value_hash = x[at].1.hash_code();
        hash = hash.wrapping_add(mix_code(key_code, value_hash));
        at = at + 1;
    }
    assert(codes.take(at as int) =~= codes);
    hash
}

impl LispVal {
    /// The hash of the value.
    pub fn hash_code(&self) -> (hash: u64)
        ensures
            hash == hash_of(*self),
        decreases *self, 1int,
    {
        proof {
            lemma_child_hashes(*self);
            assert forall|i: int| 0 <= i < children(*self).len() implies below(
                *self,
                #[trigger] children(*self)[i],
            ) by {
                lemma_children_decrease(*self, i);
            }
        }
        match self {
            LispVal::Nil => tag_code(0, 0),
            LispVal::Bool(b) => tag_code(
                1,
                if *b {
                    1
                } else {
                    0
                },
            ),
            LispVal::Str(s) => tag_code(2, text_hash(s.as_str())),
            LispVal::Symbol(s) => tag_code(3, text_hash(s.as_str())),
            LispVal::Keyword(s) => tag_code(4, text_hash(s.as_str())),
            LispVal::Float(x) => tag_code(5, x.canonical()),
            LispVal::Int(i) => tag_code(6, int_hash(*i)),
            LispVal::Complex(re, im) => tag_code(7, mix_code(re.canonical(), im.canonical())),
            LispVal::List(x) => tag_code(8, hash_list(x, Ghost(*self))),
            LispVal::Vector(x) => tag_code(9, hash_vector(x, Ghost(*self))),
            LispVal::MapVal(x) => {
                let entries = x.entries();
                proof {
                    assert forall|i: int| 0 <= i < entries@.len() implies below(
                        *self,
                        (#[trigger] entries@[i]).1,
                    ) by {
                        assert(children(*self)[i] == x@[i].1);
                    }
                    assert(children(*self) =~= Seq::new(
                        entries@.len(),
                        |i: int| entry_views(entries@)[i].1,
                    ));
                }
                tag_code(10, hash_entries(entries, Ghost(*self)))
            },
            LispVal::SetVal(x) => tag_code(11, hash_members(x.members(), Ghost(*self))),
            LispVal::Proc(p) => {
                proof {
                    let n = p.spec_params().len() as int;
                    assert(child_hashes(*self).take(n) =~= hashes(p.spec_params()));
                    assert(child_hashes(*self).skip(n) =~= hashes(p.spec_body()));
                    assert forall|i: int| 0 <= i < p.spec_params().len() implies below(
                        *self,
                        #[trigger] p.spec_params()[i],
                    ) by {
                        assert(children(*self)[i] == p.spec_params()[i]);
                    }
                    assert forall|i: int| 0 <= i < p.spec_body().len() implies below(
                        *self,
                        #[trigger] p.spec_body()[i],
                    ) by {
                        assert(children(*self)[i + n] == p.spec_body()[i]);
                    }
                }
                let name_code = text_hash(p.name());
                let params_hash = hash_list(p.params(), Ghost(*self));
                let body_hash = hash_list(p.body(), Ghost(*self));
                tag_code(12, mix_code(mix_code(name_code, params_hash), body_hash))
            },
        }
    }
}

} // verus!
