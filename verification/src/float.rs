//! A double-precision float with a total order, held as its IEEE 754 bits.
//!
//! Native floats are only partially ordered: NaN is unequal to everything,
//! itself included. Here every NaN equals every NaN and is greater than any
//! other value, so that floats can be sorted and used as keys.

use std::cmp::Ordering;
use vstd::prelude::*;
use vstd::std_specs::cmp::PartialEqSpecImpl;
use vstd::std_specs::cmp::PartialOrdSpecImpl;

verus! {

/// The sign bit of a binary64 pattern.
pub const SIGN_BIT: u64 = 0x8000_0000_0000_0000;

/// The pattern of positive infinity: every exponent bit set, no fraction
/// bit. It is also the mask of the exponent bits.
pub const INFINITY_BITS: u64 = 0x7ff0_0000_0000_0000;

/// The fraction bits of a binary64 pattern.
pub const FRACTION_BITS: u64 = 0x000f_ffff_ffff_ffff;

/// The pattern that stands for every NaN where one pattern must.
pub const CANONICAL_NAN: u64 = 0x7ff8_0000_0000_0000;

/// A float, as the 64 bits of its binary64 encoding: one sign bit, eleven
/// exponent bits, fifty-two fraction bits.
#[derive(Clone, Copy, Debug)]
pub struct LF64(pub u64);

/// Whether the sign bit is set.
pub open spec fn sign_set(bits: u64) -> bool {
    bits >= SIGN_BIT
}

/// The pattern without its sign bit. Among patterns that are not NaN, a
/// larger magnitude is a number further from zero.
pub open spec fn magnitude(bits: u64) -> u64 {
    if bits >= SIGN_BIT {
        (bits - SIGN_BIT) as u64
    } else {
        bits
    }
}

/// Whether the pattern is a NaN: its exponent bits are all set and some
/// fraction bit is set, which is to say that it lies beyond infinity.
pub open spec fn nan_bits(bits: u64) -> bool {
    magnitude(bits) > INFINITY_BITS
}

/// An integer that orders the patterns which are not NaN as the numbers they
/// encode: the magnitude, negated under a sign bit. Both zeros have key 0.
pub open spec fn order_key(bits: u64) -> int {
    if sign_set(bits) {
        -(magnitude(bits) as int)
    } else {
        magnitude(bits) as int
    }
}

/// Equality of two floats: both NaN, or neither and numerically equal.
pub open spec fn float_same(a: LF64, b: LF64) -> bool {
    if nan_bits(a.0) || nan_bits(b.0) {
        nan_bits(a.0) && nan_bits(b.0)
    } else {
        order_key(a.0) == order_key(b.0)
    }
}

/// Whether `a` comes strictly before `b`: `b` is NaN and `a` is not, or
/// neither is and `a` is numerically less.
pub open spec fn float_before(a: LF64, b: LF64) -> bool {
    if nan_bits(a.0) {
        false
    } else if nan_bits(b.0) {
        true
    } else {
        order_key(a.0) < order_key(b.0)
    }
}

/// The place of `a` relative to `b` in the total order.
pub open spec fn float_order(a: LF64, b: LF64) -> Ordering {
    if float_before(a, b) {
        Ordering::Less
    } else if float_before(b, a) {
        Ordering::Greater
    } else {
        Ordering::Equal
    }
}

/// The one pattern that stands for a float's whole equality class: the
/// canonical NaN for every NaN, positive zero for both zeros, and otherwise
/// the float's own pattern.
pub open spec fn canonical_bits(bits: u64) -> u64 {
    if nan_bits(bits) {
        CANONICAL_NAN
    } else if bits == SIGN_BIT {
        0
    } else {
        bits
    }
}

/// The pattern without its sign bit.
fn magnitude_of(bits: u64) -> (m: u64)
    ensures
        m == magnitude(bits),
{
    if bits >= SIGN_BIT {
        bits - SIGN_BIT
    } else {
        bits
    }
}

/// Numeric `<` on two patterns that are not NaN.
fn numerically_less(a: u64, b: u64) -> (less: bool)
    ensures
        less == (order_key(a) < order_key(b)),
{
    let ma = magnitude_of(a);
    let mb = magnitude_of(b);
    if a >= SIGN_BIT {
        if b >= SIGN_BIT {
            ma > mb
        } else {
            ma > 0 || mb > 0
        }
    } else {
        if b >= SIGN_BIT {
            false
        } else {
            ma < mb
        }
    }
}

impl LF64 {
    /// Whether this float is a NaN.
    pub fn is_nan(&self) -> (nan: bool)
        ensures
            nan == nan_bits(self.0),
    {
        magnitude_of(self.0) > INFINITY_BITS
    }

    /// The pattern of this float's equality class: equal floats, and only
    /// they, have the same one. It is what a hash of the float must be
    /// computed from.
    pub fn canonical(&self) -> (bits: u64)
        ensures
            bits == canonical_bits(self.0),
    {
        if self.is_nan() {
            CANONICAL_NAN
        } else if self.0 == SIGN_BIT {
            0
        } else {
            self.0
        }
    }
}

impl LF64 {
    /// Compares two floats in the total order: numerically where neither
    /// is NaN, with NaN equal to NaN and above everything else.
    pub fn cmp(&self, other: &LF64) -> (order: Ordering)
        ensures
            order == float_order(*self, *other),
    {
        match (self.is_nan(), other.is_nan()) {
            (false, false) => {
                if numerically_less(self.0, other.0) {
                    Ordering::Less
                } else if numerically_less(other.0, self.0) {
                    Ordering::Greater
                } else {
                    Ordering::Equal
                }
            },
            (false, true) => Ordering::Less,
            (true, false) => Ordering::Greater,
            (true, true) => Ordering::Equal,
        }
    }
}

impl Default for LF64 {
    /// Positive zero.
    fn default() -> (zero: LF64)
        ensures
            zero.0 == 0,
    {
        LF64(0)
    }
}

impl PartialEq for LF64 {
    fn eq(&self, other: &LF64) -> (same: bool) {
        match (self.is_nan(), other.is_nan()) {
            (false, false) => !numerically_less(self.0, other.0) && !numerically_less(
                other.0,
                self.0,
            ),
            (true, true) => true,
            _ => false,
        }
    }
}

impl PartialEqSpecImpl for LF64 {
    open spec fn obeys_eq_spec() -> bool {
        true
    }

    open spec fn eq_spec(&self, other: &LF64) -> bool {
        float_same(*self, *other)
    }
}

impl Eq for LF64 {

}

impl PartialOrd for LF64 {
    fn partial_cmp(&self, other: &LF64) -> (order: Option<Ordering>) {
        Some(self.cmp(other))
    }
}

impl PartialOrdSpecImpl for LF64 {
    open spec fn obeys_partial_cmp_spec() -> bool {
        true
    }

    open spec fn partial_cmp_spec(&self, other: &LF64) -> Option<Ordering> {
        Some(float_order(*self, *other))
    }
}

/// In terms of the fields of the encoding: the magnitude is the pattern
/// with its sign bit cleared, and a pattern is a NaN exactly when all its
/// exponent bits are set and some fraction bit is.
pub proof fn lemma_bits_by_fields(bits: u64)
    ensures
        sign_set(bits) <==> bits & SIGN_BIT != 0,
        magnitude(bits) == bits & !SIGN_BIT,
        nan_bits(bits) <==> (bits & INFINITY_BITS == INFINITY_BITS && bits & FRACTION_BITS != 0),
{
    assert(bits >= 0x8000_0000_0000_0000u64 <==> bits & 0x8000_0000_0000_0000u64 != 0)
        by (bit_vector);
    assert(bits >= 0x8000_0000_0000_0000u64 ==> (bits - 0x8000_0000_0000_0000u64) as u64 == bits
        & !0x8000_0000_0000_0000u64) by (bit_vector);
    assert(bits < 0x8000_0000_0000_0000u64 ==> bits == bits & !0x8000_0000_0000_0000u64)
        by (bit_vector);
    assert((bits & !0x8000_0000_0000_0000u64) > 0x7ff0_0000_0000_0000u64 <==> (bits
        & 0x7ff0_0000_0000_0000u64 == 0x7ff0_0000_0000_0000u64 && bits & 0x000f_ffff_ffff_ffffu64
        != 0)) by (bit_vector);
}

/// Equality of floats is an equivalence: reflexive (also for NaN),
/// symmetric and transitive.
pub proof fn lemma_float_same_is_equivalence(a: LF64, b: LF64, c: LF64)
    ensures
        float_same(a, a),
        float_same(a, b) ==> float_same(b, a),
        float_same(a, b) && float_same(b, c) ==> float_same(a, c),
{
}

/// The order is total: of any two floats, exactly one of "before", "equal"
/// and "after" holds, and "equal" is the equality of floats.
pub proof fn lemma_float_order_total(a: LF64, b: LF64)
    ensures
        float_before(a, b) || float_same(a, b) || float_before(b, a),
        !(float_before(a, b) && float_same(a, b)),
        !(float_before(b, a) && float_same(a, b)),
        !(float_before(a, b) && float_before(b, a)),
        float_order(a, b) == Ordering::Equal <==> float_same(a, b),
        float_order(a, b) == Ordering::Less <==> float_order(b, a) == Ordering::Greater,
{
}

/// The order is transitive, and it does not tell equal floats apart.
pub proof fn lemma_float_order_transitive(a: LF64, b: LF64, c: LF64)
    ensures
        float_before(a, b) && float_before(b, c) ==> float_before(a, c),
        float_same(a, b) && float_before(b, c) ==> float_before(a, c),
        float_before(a, b) && float_same(b, c) ==> float_before(a, c),
{
}

/// NaN is greater than every float that is not NaN, infinity included.
pub proof fn lemma_nan_is_greatest(a: LF64, b: LF64)
    requires
        nan_bits(a.0),
        !nan_bits(b.0),
    ensures
        float_order(a, b) == Ordering::Greater,
        float_order(b, a) == Ordering::Less,
{
}

/// Two floats are equal exactly when their canonical patterns are the
/// same, so a hash computed from the canonical pattern agrees with equality.
pub proof fn lemma_canonical_decides_same(a: LF64, b: LF64)
    ensures
        float_same(a, b) <==> canonical_bits(a.0) == canonical_bits(b.0),
{
}

} // verus!
