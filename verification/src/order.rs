//! Comparing numbers, and what rounding keeps of their order.
//!
//! Comparisons are those of the number line: the two zeros are equal, and every
//! comparison with "not a number" is false.

use crate::scalar::{
    difference, from_whole, lemma_gap_above, lemma_magnitude_increases, lemma_rounded_is_nearest, lemma_rounding_ordered,
    lemma_rounds_exactly, lemma_value_orders, lemma_whole_is_exact, lemma_wholes_ordered, magnitude, negated, rounded, sum,
    unit, Scalar, INFINITE, SIGN,
};
use vstd::arithmetic::power2::{lemma_pow2_adds, lemma_pow2_pos, lemma2_to64, pow2};
use vstd::prelude::*;

verus! {

/// Zero.
#[verifier::allow_in_spec]
pub fn zero() -> Scalar
    returns
        (Scalar { bits: 0 }),
{
    Scalar { bits: 0 }
}

/// One half.
#[verifier::allow_in_spec]
pub fn half() -> Scalar
    returns
        (Scalar { bits: 0x3F00_0000 }),
{
    Scalar { bits: 0x3F00_0000 }
}

/// One.
#[verifier::allow_in_spec]
pub fn one() -> Scalar
    returns
        (Scalar { bits: 0x3F80_0000 }),
{
    Scalar { bits: 0x3F80_0000 }
}

/// The largest finite number.
#[verifier::allow_in_spec]
pub fn largest() -> Scalar
    returns
        (Scalar { bits: 0x7F7F_FFFF }),
{
    Scalar { bits: 0x7F7F_FFFF }
}

/// `a < b`.
pub open spec fn less(a: Scalar, b: Scalar) -> bool {
    !a.nan() && !b.nan() && a.position() < b.position()
}

/// `a <= b`.
pub open spec fn at_most(a: Scalar, b: Scalar) -> bool {
    !a.nan() && !b.nan() && a.position() <= b.position()
}

/// `a == b` as numbers.
pub open spec fn equal(a: Scalar, b: Scalar) -> bool {
    !a.nan() && !b.nan() && a.position() == b.position()
}

/// The smaller of two, or the one that is a number.
pub open spec fn smaller(a: Scalar, b: Scalar) -> Scalar {
    if a.nan() || less(b, a) {
        b
    } else {
        a
    }
}

/// The larger of two, or the one that is a number.
pub open spec fn larger(a: Scalar, b: Scalar) -> Scalar {
    if a.nan() || less(a, b) {
        b
    } else {
        a
    }
}

/// A number brought within bounds; "not a number" stays what it is.
pub open spec fn clamped(a: Scalar, low: Scalar, high: Scalar) -> Scalar {
    if less(a, low) {
        low
    } else if less(high, a) {
        high
    } else {
        a
    }
}

/// The number without its sign.
pub open spec fn absolute(a: Scalar) -> Scalar {
    Scalar { bits: a.rank() as u32 }
}

/// The place of a pattern in the total order of patterns: like the number line,
/// with minus zero before zero and "not a number" at the far ends.
pub open spec fn place(a: Scalar) -> int {
    if a.negative() {
        -a.rank() - 1
    } else {
        a.rank()
    }
}

/// The number next below one that is not the least.
pub open spec fn below(a: Scalar) -> Scalar {
    if a.zero() {
        Scalar { bits: (SIGN + 1) as u32 }
    } else if a.negative() {
        Scalar { bits: (a.bits + 1) as u32 }
    } else {
        Scalar { bits: (a.bits - 1) as u32 }
    }
}

impl Scalar {
    fn signed_position(self) -> (p: i64)
        ensures
            p == self.position(),
    {
        if self.bits >= SIGN {
            -((self.bits - SIGN) as i64)
        } else {
            self.bits as i64
        }
    }

    /// `self < other`.
    pub fn lt(self, other: Scalar) -> (yes: bool)
        ensures
            yes == less(self, other),
    {
        !self.is_nan() && !other.is_nan() && self.signed_position() < other.signed_position()
    }

    /// `self <= other`.
    pub fn le(self, other: Scalar) -> (yes: bool)
        ensures
            yes == at_most(self, other),
    {
        !self.is_nan() && !other.is_nan() && self.signed_position() <= other.signed_position()
    }

    /// `self > other`.
    pub fn gt(self, other: Scalar) -> (yes: bool)
        ensures
            yes == less(other, self),
    {
        other.lt(self)
    }

    /// `self >= other`.
    pub fn ge(self, other: Scalar) -> (yes: bool)
        ensures
            yes == at_most(other, self),
    {
        other.le(self)
    }

    /// `self == other` as numbers.
    pub fn same(self, other: Scalar) -> (yes: bool)
        ensures
            yes == equal(self, other),
    {
        !self.is_nan() && !other.is_nan() && self.signed_position() == other.signed_position()
    }

    /// The smaller of two.
    pub fn min(self, other: Scalar) -> (r: Scalar)
        ensures
            r == smaller(self, other),
    {
        if self.is_nan() || other.lt(self) {
            other
        } else {
            self
        }
    }

    /// The larger of two.
    pub fn max(self, other: Scalar) -> (r: Scalar)
        ensures
            r == larger(self, other),
    {
        if self.is_nan() || self.lt(other) {
            other
        } else {
            self
        }
    }

    /// The number brought within bounds.
    pub fn clamp(self, low: Scalar, high: Scalar) -> (r: Scalar)
        requires
            at_most(low, high),
        ensures
            r == clamped(self, low, high),
    {
        if self.lt(low) {
            low
        } else if self.gt(high) {
            high
        } else {
            self
        }
    }

    /// The number without its sign.
    pub fn abs(self) -> (r: Scalar)
        ensures
            r == absolute(self),
    {
        if self.bits >= SIGN {
            Scalar { bits: self.bits - SIGN }
        } else {
            self
        }
    }

    /// The number next below.
    pub fn next_below(self) -> (r: Scalar)
        requires
            !self.nan(),
            self.position() > -INFINITE,
        ensures
            r == below(self),
    {
        if self.bits == 0 || self.bits == SIGN {
            Scalar { bits: SIGN + 1 }
        } else if self.bits > SIGN {
            Scalar { bits: self.bits + 1 }
        } else {
            Scalar { bits: self.bits - 1 }
        }
    }

    /// True when `self` comes no later than `other` in the total order of
    /// patterns.
    pub fn no_later(self, other: Scalar) -> (yes: bool)
        ensures
            yes == (place(self) <= place(other)),
    {
        let a: i64 = if self.bits >= SIGN {
            -((self.bits - SIGN) as i64) - 1
        } else {
            self.bits as i64
        };
        let b: i64 = if other.bits >= SIGN {
            -((other.bits - SIGN) as i64) - 1
        } else {
            other.bits as i64
        };
        a <= b
    }
}

/// One is the whole number one.
pub proof fn lemma_one()
    ensures
        from_whole(1) == one(),
        one().value() == unit(),
{
    lemma_pow2_adds(23, 126);
    lemma2_to64();
    assert(magnitude(0x3F80_0000) == 0x80_0000 * pow2(126));
    lemma_whole_is_exact(1);
    assert(1 * unit() == unit()) by (nonlinear_arith);
    lemma_value_orders(from_whole(1), one());
}

/// One half is half of one.
pub proof fn lemma_half()
    ensures
        2 * half().value() == unit(),
        half().value() > 0,
{
    lemma_pow2_adds(24, 125);
    lemma2_to64();
    lemma_pow2_pos(125);
    assert(magnitude(0x3F00_0000) == 0x80_0000 * pow2(125));
}

/// Half a step past a whole number is no further than the next one.
pub proof fn lemma_half_step(i: int)
    requires
        0 <= i < u32::MAX,
    ensures
        ({
            let s = sum(from_whole(i), half());
            &&& s.finite()
            &&& !s.negative()
            &&& !s.zero()
            &&& from_whole(i).position() <= s.position() <= from_whole(i + 1).position()
        }),
{
    reveal(sum);
    lemma_half();
    let h = half().value();
    let a = from_whole(i);
    let b = from_whole(i + 1);
    lemma_wholes_ordered(i, i + 1);
    assert(magnitude(0) == 0);
    if a.rank() > 0 {
        lemma_magnitude_increases(0, a.rank());
    }
    let exact = a.value() + h;
    let r = rounded(exact, 1);
    lemma_rounded_is_nearest(exact, 1);
    lemma_rounds_exactly(a.rank());
    lemma_rounding_ordered(a.value(), exact, 1);
    lemma_rounds_exactly(half().rank());
    lemma_rounding_ordered(h, exact, 1);
    if i < 0x100_0000 {
        lemma_whole_is_exact(i);
        lemma_whole_is_exact(i + 1);
        assert((i + 1) * unit() == i * unit() + unit()) by (nonlinear_arith);
        lemma_rounds_exactly(b.rank());
        lemma_rounding_ordered(exact, b.value(), 1);
    } else if r > b.rank() {
        let m = magnitude(a.rank());
        if r - 1 > a.rank() {
            lemma_magnitude_increases(a.rank(), r - 1);
            lemma_magnitude_increases(a.rank() + 1, r);
        }
        let step = magnitude(a.rank() + 1) - m;
        assert(step <= unit());
        lemma_gap_above(a.rank());
        lemma_wholes_ordered(0x100_0000, i);
        lemma_whole_is_exact(0x100_0000);
        lemma_value_orders(from_whole(0x100_0000), a);
        assert(false);
    }
}

/// Taking one from a number of at least one leaves a number between zero and
/// what it was.
pub proof fn lemma_less_one(a: Scalar)
    requires
        a.finite(),
        at_most(one(), a),
    ensures
        difference(a, one()).finite(),
        !difference(a, one()).negative(),
        at_most(zero(), difference(a, one())),
        at_most(difference(a, one()), a),
{
    lemma_one();
    lemma_value_orders(one(), a);
    reveal(sum);
    let exact = a.value() - one().value();
    assert(magnitude(0) == 0);
    lemma_magnitude_increases(0, one().rank());
    lemma_rounds_exactly(a.rank());
    lemma_rounding_ordered(exact, a.value(), 1);
    lemma_rounded_is_nearest(exact, 1);
    assert(negated(one()).value() == -one().value());
}

// ---------------------------------------------------------------------------
// Laws
// ---------------------------------------------------------------------------

/// Numbers are compared by what they are worth, and what is not a number is neither
/// more nor less than anything.
pub proof fn law_numbers_compare_by_value(a: Scalar, b: Scalar)
    ensures
        a.finite() && b.finite() ==> {
            &&& less(a, b) == (a.value() < b.value())
            &&& at_most(a, b) == (a.value() <= b.value())
            &&& equal(a, b) == (a.value() == b.value())
        },
        a.nan() || b.nan() ==> !less(a, b) && !at_most(a, b) && !equal(a, b),
        a.infinite() && !a.negative() && b.finite() ==> less(b, a),
        a.infinite() && a.negative() && b.finite() ==> less(a, b),
{
    if a.finite() && b.finite() {
        lemma_value_orders(a, b);
    }
}

/// The smaller of two is one of them and no more than either, the larger one of
/// them and no less, and a number is preferred to what is none.
pub proof fn law_the_smaller_is_one_of_the_two(a: Scalar, b: Scalar)
    ensures
        smaller(a, b) == a || smaller(a, b) == b,
        larger(a, b) == a || larger(a, b) == b,
        !a.nan() && !b.nan() ==> {
            &&& at_most(smaller(a, b), a) && at_most(smaller(a, b), b)
            &&& at_most(a, larger(a, b)) && at_most(b, larger(a, b))
        },
        a.nan() ==> smaller(a, b) == b && larger(a, b) == b,
        b.nan() && !a.nan() ==> smaller(a, b) == a && larger(a, b) == a,
{
}

/// A number brought within bounds is within them, and one that was there already
/// does not move.
pub proof fn law_a_clamp_keeps_to_its_bounds(a: Scalar, low: Scalar, high: Scalar)
    requires
        !a.nan(),
        at_most(low, high),
    ensures
        at_most(low, clamped(a, low, high)),
        at_most(clamped(a, low, high), high),
        at_most(low, a) && at_most(a, high) ==> clamped(a, low, high) == a,
        less(a, low) ==> clamped(a, low, high) == low,
        less(high, a) ==> clamped(a, low, high) == high,
{
}

/// The size of a number is that of its opposite, is never negative, and is its own.
pub proof fn law_a_size_has_no_sign(a: Scalar)
    requires
        !a.nan(),
    ensures
        absolute(a) == absolute(negated(a)),
        !absolute(a).negative(),
        !a.negative() ==> absolute(a) == a,
        a.negative() ==> absolute(a) == negated(a),
{
}

} // verus!
