//! What holds of every value: being the same is an equivalence, and values
//! that are the same hash alike.

use crate::float::lemma_canonical_decides_same;
use crate::float::lemma_float_same_is_equivalence;
use crate::hash::child_hashes;
use crate::hash::entry_codes;
use crate::hash::fold_unordered;
use crate::hash::hash_of;
use crate::hash::hashes;
use crate::hash::lemma_child_hashes;
use crate::types::children;
use crate::types::entry_found_in;
use crate::types::entry_reached_from;
use crate::types::found_in;
use crate::types::lemma_children_decrease;
use crate::types::reached_from;
use crate::types::same;
use crate::types::same_entry;
use crate::types::valid;
use crate::types::LispList;
use crate::types::LispVal;
use vstd::prelude::*;
use vstd::std_specs::cmp::PartialEqSpec;

verus! {

/// Every value is the same as itself, a NaN and a set that holds one
/// included.
pub proof fn lemma_same_reflexive(a: LispVal)
    ensures
        same(a, a),
    decreases a,
{
    assert forall|i: int| 0 <= i < children(a).len() implies same(
        #[trigger] children(a)[i],
        children(a)[i],
    ) by {
        lemma_children_decrease(a, i);
        lemma_same_reflexive(children(a)[i]);
    }
    match a {
        LispVal::Float(x) => {
            lemma_float_same_is_equivalence(x, x, x);
        },
        LispVal::Complex(re, im) => {
            lemma_float_same_is_equivalence(re, re, re);
            lemma_float_same_is_equivalence(im, im, im);
        },
        LispVal::List(x) => {
            assert(children(a) == x@);
        },
        LispVal::Vector(x) => {
            assert(children(a) == x@);
        },
        LispVal::MapVal(x) => {
            assert forall|i: int| 0 <= i < x@.len() implies same_entry(#[trigger] x@[i], x@[i]) by {
                assert(x@[i].1 == children(a)[i]);
            }
            assert(forall|i: int| 0 <= i < x@.len() ==> entry_found_in(#[trigger] x@[i], x@));
            assert(forall|j: int| 0 <= j < x@.len() ==> entry_reached_from(x, #[trigger] x@[j]));
        },
        LispVal::SetVal(x) => {
            assert(children(a) == x@);
            assert(forall|i: int| 0 <= i < x@.len() ==> found_in(#[trigger] x@[i], x@));
            assert(forall|j: int| 0 <= j < x@.len() ==> reached_from(x, #[trigger] x@[j]));
        },
        LispVal::Proc(p) => {
            let n = p.spec_params().len() as int;
            assert forall|i: int| 0 <= i < p.spec_params().len() implies same(
                #[trigger] p.spec_params()[i],
                p.spec_params()[i],
            ) by {
                assert(p.spec_params()[i] == children(a)[i]);
            }
            assert forall|i: int| 0 <= i < p.spec_body().len() implies same(
                #[trigger] p.spec_body()[i],
                p.spec_body()[i],
            ) by {
                assert(p.spec_body()[i] == children(a)[i + n]);
            }
        },
        _ => {},
    }
}

/// If one value is the same as another, the other is the same as it.
pub proof fn lemma_same_symmetric(a: LispVal, b: LispVal)
    requires
        same(a, b),
    ensures
        same(b, a),
    decreases a,
{
    match (a, b) {
        (LispVal::Float(x), LispVal::Float(y)) => {
            lemma_float_same_is_equivalence(x, y, x);
        },
        (LispVal::Complex(xr, xi), LispVal::Complex(yr, yi)) => {
            lemma_float_same_is_equivalence(xr, yr, xr);
            lemma_float_same_is_equivalence(xi, yi, xi);
        },
        (LispVal::List(x), LispVal::List(y)) => {
            assert forall|i: int| 0 <= i < y@.len() implies same(#[trigger] y@[i], x@[i]) by {
                assert(same(x@[i], y@[i]));
                assert(x@[i] == children(a)[i]);
                lemma_children_decrease(a, i);
                lemma_same_symmetric(x@[i], y@[i]);
            }
        },
        (LispVal::Vector(x), LispVal::Vector(y)) => {
            assert forall|i: int| 0 <= i < y@.len() implies same(#[trigger] y@[i], x@[i]) by {
                assert(same(x@[i], y@[i]));
                assert(x@[i] == children(a)[i]);
                lemma_children_decrease(a, i);
                lemma_same_symmetric(x@[i], y@[i]);
            }
        },
        (LispVal::MapVal(x), LispVal::MapVal(y)) => {
            assert forall|j: int| 0 <= j < y@.len() implies entry_found_in(
                #[trigger] y@[j],
                x@,
            ) by {
                assert(entry_reached_from(x, y@[j]));
                let i = choose|i: int| 0 <= i < x@.len() && same_entry(#[trigger] x@[i], y@[j]);
                assert(x@[i].1 == children(a)[i]);
                lemma_children_decrease(a, i);
                lemma_same_symmetric(x@[i].1, y@[j].1);
                assert(same_entry(y@[j], x@[i]));
            }
            assert forall|i: int| 0 <= i < x@.len() implies entry_reached_from(
                y,
                #[trigger] x@[i],
            ) by {
                assert(entry_found_in(x@[i], y@));
                let j = choose|j: int| 0 <= j < y@.len() && same_entry(x@[i], #[trigger] y@[j]);
                assert(x@[i].1 == children(a)[i]);
                lemma_children_decrease(a, i);
                lemma_same_symmetric(x@[i].1, y@[j].1);
                assert(same_entry(y@[j], x@[i]));
            }
        },
        (LispVal::SetVal(x), LispVal::SetVal(y)) => {
            assert forall|j: int| 0 <= j < y@.len() implies found_in(#[trigger] y@[j], x@) by {
                assert(reached_from(x, y@[j]));
                let i = choose|i: int| 0 <= i < x@.len() && same(#[trigger] x@[i], y@[j]);
                assert(x@[i] == children(a)[i]);
                lemma_children_decrease(a, i);
                lemma_same_symmetric(x@[i], y@[j]);
            }
            assert forall|i: int| 0 <= i < x@.len() implies reached_from(y, #[trigger] x@[i]) by {
                assert(found_in(x@[i], y@));
                let j = choose|j: int| 0 <= j < y@.len() && same(x@[i], #[trigger] y@[j]);
                assert(x@[i] == children(a)[i]);
                lemma_children_decrease(a, i);
                lemma_same_symmetric(x@[i], y@[j]);
                assert(same(y@[j], x@[i]));
            }
        },
        (LispVal::Proc(p), LispVal::Proc(q)) => {
            let n = p.spec_params().len() as int;
            assert forall|i: int| 0 <= i < q.spec_params().len() implies same(
                #[trigger] q.spec_params()[i],
                p.spec_params()[i],
            ) by {
                assert(same(p.spec_params()[i], q.spec_params()[i]));
                assert(p.spec_params()[i] == children(a)[i]);
                lemma_children_decrease(a, i);
                lemma_same_symmetric(p.spec_params()[i], q.spec_params()[i]);
            }
            assert forall|i: int| 0 <= i < q.spec_body().len() implies same(
                #[trigger] q.spec_body()[i],
                p.spec_body()[i],
            ) by {
                assert(same(p.spec_body()[i], q.spec_body()[i]));
                assert(p.spec_body()[i] == children(a)[i + n]);
                lemma_children_decrease(a, i + n);
                lemma_same_symmetric(p.spec_body()[i], q.spec_body()[i]);
            }
        },
        _ => {},
    }
}

/// If one value is the same as a second, and that as a third, the first is
/// the same as the third.
pub proof fn lemma_same_transitive(a: LispVal, b: LispVal, c: LispVal)
    requires
        same(a, b),
        same(b, c),
    ensures
        same(a, c),
    decreases a,
{
    match (a, b, c) {
        (LispVal::Float(x), LispVal::Float(y), LispVal::Float(z)) => {
            lemma_float_same_is_equivalence(x, y, z);
        },
        (LispVal::Complex(xr, xi), LispVal::Complex(yr, yi), LispVal::Complex(zr, zi)) => {
            lemma_float_same_is_equivalence(xr, yr, zr);
            lemma_float_same_is_equivalence(xi, yi, zi);
        },
        (LispVal::List(x), LispVal::List(y), LispVal::List(z)) => {
            assert forall|i: int| 0 <= i < x@.len() implies same(#[trigger] x@[i], z@[i]) by {
                assert(same(x@[i], y@[i]));
                assert(same(y@[i], z@[i]));
                assert(x@[i] == children(a)[i]);
                lemma_children_decrease(a, i);
                lemma_same_transitive(x@[i], y@[i], z@[i]);
            }
        },
        (LispVal::Vector(x), LispVal::Vector(y), LispVal::Vector(z)) => {
            assert forall|i: int| 0 <= i < x@.len() implies same(#[trigger] x@[i], z@[i]) by {
                assert(same(x@[i], y@[i]));
                assert(same(y@[i], z@[i]));
                assert(x@[i] == children(a)[i]);
                lemma_children_decrease(a, i);
                lemma_same_transitive(x@[i], y@[i], z@[i]);
            }
        },
        (LispVal::MapVal(x), LispVal::MapVal(y), LispVal::MapVal(z)) => {
            assert forall|i: int| 0 <= i < x@.len() implies entry_found_in(
                #[trigger] x@[i],
                z@,
            ) by {
                assert(entry_found_in(x@[i], y@));
                let j = choose|j: int| 0 <= j < y@.len() && same_entry(x@[i], #[trigger] y@[j]);
                assert(entry_found_in(y@[j], z@));
                let k = choose|k: int| 0 <= k < z@.len() && same_entry(y@[j], #[trigger] z@[k]);
                assert(x@[i].1 == children(a)[i]);
                lemma_children_decrease(a, i);
                lemma_same_transitive(x@[i].1, y@[j].1, z@[k].1);
                assert(same_entry(x@[i], z@[k]));
            }
            assert forall|k: int| 0 <= k < z@.len() implies entry_reached_from(
                x,
                #[trigger] z@[k],
            ) by {
                assert(entry_reached_from(y, z@[k]));
                let j = choose|j: int| 0 <= j < y@.len() && same_entry(#[trigger] y@[j], z@[k]);
                assert(entry_reached_from(x, y@[j]));
                let i = choose|i: int| 0 <= i < x@.len() && same_entry(#[trigger] x@[i], y@[j]);
                assert(x@[i].1 == children(a)[i]);
                lemma_children_decrease(a, i);
                lemma_same_transitive(x@[i].1, y@[j].1, z@[k].1);
                assert(same_entry(x@[i], z@[k]));
            }
        },
        (LispVal::SetVal(x), LispVal::SetVal(y), LispVal::SetVal(z)) => {
            assert forall|i: int| 0 <= i < x@.len() implies found_in(#[trigger] x@[i], z@) by {
                assert(found_in(x@[i], y@));
                let j = choose|j: int| 0 <= j < y@.len() && same(x@[i], #[trigger] y@[j]);
                assert(found_in(y@[j], z@));
                let k = choose|k: int| 0 <= k < z@.len() && same(y@[j], #[trigger] z@[k]);
                assert(x@[i] == children(a)[i]);
                lemma_children_decrease(a, i);
                lemma_same_transitive(x@[i], y@[j], z@[k]);
            }
            assert forall|k: int| 0 <= k < z@.len() implies reached_from(x, #[trigger] z@[k]) by {
                assert(reached_from(y, z@[k]));
                let j = choose|j: int| 0 <= j < y@.len() && same(#[trigger] y@[j], z@[k]);
                assert(reached_from(x, y@[j]));
                let i = choose|i: int| 0 <= i < x@.len() && same(#[trigger] x@[i], y@[j]);
                assert(x@[i] == children(a)[i]);
                lemma_children_decrease(a, i);
                lemma_same_transitive(x@[i], y@[j], z@[k]);
            }
        },
        (LispVal::Proc(p), LispVal::Proc(q), LispVal::Proc(r)) => {
            let n = p.spec_params().len() as int;
            assert forall|i: int| 0 <= i < p.spec_params().len() implies same(
                #[trigger] p.spec_params()[i],
                r.spec_params()[i],
            ) by {
                assert(same(p.spec_params()[i], q.spec_params()[i]));
                assert(same(q.spec_params()[i], r.spec_params()[i]));
                assert(p.spec_params()[i] == children(a)[i]);
                lemma_children_decrease(a, i);
                lemma_same_transitive(p.spec_params()[i], q.spec_params()[i], r.spec_params()[i]);
            }
            assert forall|i: int| 0 <= i < p.spec_body().len() implies same(
                #[trigger] p.spec_body()[i],
                r.spec_body()[i],
            ) by {
                assert(same(p.spec_body()[i], q.spec_body()[i]));
                assert(same(q.spec_body()[i], r.spec_body()[i]));
                assert(p.spec_body()[i] == children(a)[i + n]);
                lemma_children_decrease(a, i + n);
                lemma_same_transitive(p.spec_body()[i], q.spec_body()[i], r.spec_body()[i]);
            }
        },
        _ => {},
    }
}

/// Two lists of values are equal as lists exactly when, taken as values,
/// they are the same: equality of lists goes element by element, by the
/// equality of values.
pub proof fn lemma_equal_lists_are_same_values(x: LispList, y: LispList)
    ensures
        x.eq_spec(&y) <==> same(LispVal::List(x), LispVal::List(y)),
{
    if x.eq_spec(&y) {
        assert forall|i: int| 0 <= i < x@.len() implies same(#[trigger] x@[i], y@[i]) by {
            assert(x@[i].eq_spec(&y@[i]));
        }
    }
    if same(LispVal::List(x), LispVal::List(y)) {
        assert forall|i: int| 0 <= i < x@.len() implies (#[trigger] x@[i]).eq_spec(&y@[i]) by {
            assert(same(x@[i], y@[i]));
        }
    }
}

/// Taking one code out of an unordered fold and adding it again gives the
/// fold back.
proof fn lemma_fold_without(codes: Seq<u64>, at: int)
    requires
        0 <= at < codes.len(),
    ensures
        fold_unordered(codes) == fold_unordered(codes.remove(at)).wrapping_add(codes[at]),
    decreases codes.len(),
{
    if at < codes.len() - 1 {
        lemma_fold_without(codes.drop_last(), at);
        assert(codes.drop_last().remove(at) =~= codes.remove(at).drop_last());
        assert(codes.remove(at).last() == codes.last());
    } else {
        assert(codes.remove(at) =~= codes.drop_last());
    }
}

/// Whether place `i` of the first run has a match among the first `n`
/// places of the second.
spec fn has_match_right(like: spec_fn(int, int) -> bool, i: int, n: int) -> bool {
    exists|j: int| 0 <= j < n && #[trigger] like(i, j)
}

/// Whether place `j` of the second run has a match among the first `n`
/// places of the first.
spec fn has_match_left(like: spec_fn(int, int) -> bool, j: int, n: int) -> bool {
    exists|i: int| 0 <= i < n && #[trigger] like(i, j)
}

/// Two runs of codes that are matched one to one, equal code to equal code,
/// fold to the same whatever their order. `like(i, j)` says that place `i`
/// of the first run is matched with place `j` of the second.
///
/// The last place of the first run and its partner are taken out. What is
/// left is matched as before, the places behind the partner counted one
/// lower, and folds to the same by induction; the two codes taken out are
/// equal.
proof fn lemma_matched_folds_agree(
    left: Seq<u64>,
    right: Seq<u64>,
    like: spec_fn(int, int) -> bool,
)
    requires
        forall|i: int|
            0 <= i < left.len() ==> #[trigger] has_match_right(like, i, right.len() as int),
        forall|j: int|
            0 <= j < right.len() ==> #[trigger] has_match_left(like, j, left.len() as int),
        forall|i: int, j: int|
            0 <= i < left.len() && 0 <= j < right.len() && #[trigger] like(i, j) ==> left[i]
                == right[j],
        forall|i: int, k: int, j: int|
            0 <= i < left.len() && 0 <= k < left.len() && 0 <= j < right.len() && #[trigger] like(
                i,
                j,
            ) && #[trigger] like(k, j) ==> i == k,
        forall|i: int, j: int, k: int|
            0 <= i < left.len() && 0 <= j < right.len() && 0 <= k < right.len() && #[trigger] like(
                i,
                j,
            ) && #[trigger] like(i, k) ==> j == k,
    ensures
        fold_unordered(left) == fold_unordered(right),
    decreases left.len(),
{
    if left.len() == 0 {
        if right.len() > 0 {
            assert(has_match_left(like, 0, left.len() as int));
        }
    } else {
        let last = left.len() - 1;
        assert(has_match_right(like, last, right.len() as int));
        let partner = choose|j: int| 0 <= j < right.len() && #[trigger] like(last, j);
        let shift = |j: int|
            if j < partner {
                j
            } else {
                j + 1
            };
        let rest_like = |i: int, j: int| like(i, shift(j));
        let left_rest = left.drop_last();
        let right_rest = right.remove(partner);
        assert forall|i: int| 0 <= i < left_rest.len() implies #[trigger] has_match_right(
            rest_like,
            i,
            right_rest.len() as int,
        ) by {
            assert(has_match_right(like, i, right.len() as int));
            let j = choose|j: int| 0 <= j < right.len() && #[trigger] like(i, j);
            assert(like(last, partner));
            assert(j != partner);
            let j_rest = if j < partner {
                j
            } else {
                j - 1
            };
            assert(shift(j_rest) == j);
            assert(rest_like(i, j_rest));
        }
        assert forall|j: int| 0 <= j < right_rest.len() implies #[trigger] has_match_left(
            rest_like,
            j,
            left_rest.len() as int,
        ) by {
            assert(has_match_left(like, shift(j), left.len() as int));
            let i = choose|i: int| 0 <= i < left.len() && #[trigger] like(i, shift(j));
            assert(like(last, partner));
            assert(i != last);
            assert(rest_like(i, j));
        }
        assert forall|i: int, j: int|
            0 <= i < left_rest.len() && 0 <= j < right_rest.len() && #[trigger] rest_like(
                i,
                j,
            ) implies left_rest[i] == right_rest[j] by {
            assert(like(i, shift(j)));
        }
        assert forall|i: int, k: int, j: int|
            0 <= i < left_rest.len() && 0 <= k < left_rest.len() && 0 <= j < right_rest.len()
                && #[trigger] rest_like(i, j) && #[trigger] rest_like(k, j) implies i == k by {
            assert(like(i, shift(j)) && like(k, shift(j)));
        }
        assert forall|i: int, j: int, k: int|
            0 <= i < left_rest.len() && 0 <= j < right_rest.len() && 0 <= k < right_rest.len()
                && #[trigger] rest_like(i, j) && #[trigger] rest_like(i, k) implies j == k by {
            assert(like(i, shift(j)) && like(i, shift(k)));
        }
        lemma_matched_folds_agree(left_rest, right_rest, rest_like);
        lemma_fold_without(right, partner);
        assert(like(last, partner));
    }
}

/// Values that are the same have the same hash. The values are taken to
/// be sound (see `valid`): a set that held one member twice would count it
/// twice.
pub proof fn lemma_same_values_hash_alike(a: LispVal, b: LispVal)
    requires
        valid(a),
        valid(b),
        same(a, b),
    ensures
        hash_of(a) == hash_of(b),
    decreases a, 1int,
{
    lemma_child_hashes(a);
    lemma_child_hashes(b);
    match (a, b) {
        (LispVal::Float(x), LispVal::Float(y)) => {
            lemma_canonical_decides_same(x, y);
        },
        (LispVal::Complex(xr, xi), LispVal::Complex(yr, yi)) => {
            lemma_canonical_decides_same(xr, yr);
            lemma_canonical_decides_same(xi, yi);
        },
        (LispVal::List(x), LispVal::List(y)) => {
            assert forall|i: int| 0 <= i < x@.len() implies hash_of(x@[i]) == hash_of(y@[i]) by {
                lemma_child_alike(a, b, i, i);
            }
            assert(hashes(x@) =~= hashes(y@));
        },
        (LispVal::Vector(x), LispVal::Vector(y)) => {
            assert forall|i: int| 0 <= i < x@.len() implies hash_of(x@[i]) == hash_of(y@[i]) by {
                lemma_child_alike(a, b, i, i);
            }
            assert(hashes(x@) =~= hashes(y@));
        },
        (LispVal::MapVal(x), LispVal::MapVal(y)) => {
            let left = entry_codes(x@, child_hashes(a));
            let right = entry_codes(y@, child_hashes(b));
            let like = |i: int, j: int| same_entry(x@[i], y@[j]);
            assert forall|i: int| 0 <= i < left.len() implies #[trigger] has_match_right(
                like,
                i,
                right.len() as int,
            ) by {
                assert(entry_found_in(x@[i], y@));
                let j = choose|j: int| 0 <= j < y@.len() && same_entry(x@[i], #[trigger] y@[j]);
                assert(like(i, j));
            }
            assert forall|j: int| 0 <= j < right.len() implies #[trigger] has_match_left(
                like,
                j,
                left.len() as int,
            ) by {
                assert(entry_reached_from(x, y@[j]));
                let i = choose|i: int| 0 <= i < x@.len() && same_entry(#[trigger] x@[i], y@[j]);
                assert(like(i, j));
            }
            assert forall|i: int, j: int|
                0 <= i < left.len() && 0 <= j < right.len() && #[trigger] like(
                    i,
                    j,
                ) implies left[i] == right[j] by {
                lemma_child_alike(a, b, i, j);
            }
            assert forall|i: int, k: int, j: int|
                0 <= i < left.len() && 0 <= k < left.len() && 0 <= j < right.len() && #[trigger] like(
                    i,
                    j,
                ) && #[trigger] like(k, j) implies i == k by {
                assert(x@[i].0 == x@[k].0);
            }
            assert forall|i: int, j: int, k: int|
                0 <= i < left.len() && 0 <= j < right.len() && 0 <= k < right.len() && #[trigger] like(
                    i,
                    j,
                ) && #[trigger] like(i, k) implies j == k by {
                assert(y@[j].0 == y@[k].0);
            }
            lemma_matched_folds_agree(left, right, like);
        },
        (LispVal::SetVal(x), LispVal::SetVal(y)) => {
            let left = hashes(x@);
            let right = hashes(y@);
            let like = |i: int, j: int| same(x@[i], y@[j]);
            assert forall|i: int| 0 <= i < left.len() implies #[trigger] has_match_right(
                like,
                i,
                right.len() as int,
            ) by {
                assert(found_in(x@[i], y@));
                let j = choose|j: int| 0 <= j < y@.len() && same(x@[i], #[trigger] y@[j]);
                assert(like(i, j));
            }
            assert forall|j: int| 0 <= j < right.len() implies #[trigger] has_match_left(
                like,
                j,
                left.len() as int,
            ) by {
                assert(reached_from(x, y@[j]));
                let i = choose|i: int| 0 <= i < x@.len() && same(#[trigger] x@[i], y@[j]);
                assert(like(i, j));
            }
            assert forall|i: int, j: int|
                0 <= i < left.len() && 0 <= j < right.len() && #[trigger] like(
                    i,
                    j,
                ) implies left[i] == right[j] by {
                lemma_child_alike(a, b, i, j);
            }
            assert forall|i: int, k: int, j: int|
                0 <= i < left.len() && 0 <= k < left.len() && 0 <= j < right.len() && #[trigger] like(
                    i,
                    j,
                ) && #[trigger] like(k, j) implies i == k by {
                lemma_same_symmetric(x@[k], y@[j]);
                lemma_same_transitive(x@[i], y@[j], x@[k]);
                lemma_same_symmetric(x@[i], x@[k]);
            }
            assert forall|i: int, j: int, k: int|
                0 <= i < left.len() && 0 <= j < right.len() && 0 <= k < right.len() && #[trigger] like(
                    i,
                    j,
                ) && #[trigger] like(i, k) implies j == k by {
                lemma_same_symmetric(x@[i], y@[j]);
                lemma_same_transitive(y@[j], x@[i], y@[k]);
                lemma_same_symmetric(y@[j], y@[k]);
            }
            lemma_matched_folds_agree(left, right, like);
        },
        (LispVal::Proc(p), LispVal::Proc(q)) => {
            let n = p.spec_params().len() as int;
            assert forall|i: int| 0 <= i < p.spec_params().len() implies hash_of(
                p.spec_params()[i],
            ) == hash_of(q.spec_params()[i]) by {
                assert(same(p.spec_params()[i], q.spec_params()[i]));
                lemma_child_alike(a, b, i, i);
            }
            assert forall|i: int| 0 <= i < p.spec_body().len() implies hash_of(p.spec_body()[i])
                == hash_of(q.spec_body()[i]) by {
                assert(same(p.spec_body()[i], q.spec_body()[i]));
                lemma_child_alike(a, b, i + n, i + n);
            }
            assert(child_hashes(a).take(n) =~= child_hashes(b).take(n));
            assert(child_hashes(a).skip(n) =~= child_hashes(b).skip(n));
        },
        _ => {},
    }
}

/// What the law above says of two values holds of the values they hold,
/// which are smaller.
proof fn lemma_child_alike(a: LispVal, b: LispVal, i: int, j: int)
    requires
        valid(a),
        valid(b),
        0 <= i < children(a).len(),
        0 <= j < children(b).len(),
        same(children(a)[i], children(b)[j]),
    ensures
        hash_of(children(a)[i]) == hash_of(children(b)[j]),
    decreases a, 0int,
{
    lemma_children_decrease(a, i);
    lemma_same_values_hash_alike(children(a)[i], children(b)[j]);
}

} // verus!
