//! Points of the plane and cells of the grid.

use crate::order::{half, lemma_half, lemma_one, one};
use crate::scalar::{
    difference, from_whole, lemma_exact_sum, lemma_fraction_rounds_exactly, lemma_square_of_opposite, lemma_value_orders,
    lemma_whole_difference, lemma_whole_is_exact, lemma_whole_product, lemma_whole_root, lemma_whole_sum, negated, product,
    square_root, sum, unit, Scalar,
};
use vstd::arithmetic::power2::lemma_pow2_pos;
use vstd::prelude::*;

verus! {

/// A point, or a displacement, of the plane.
#[derive(Clone, Copy, PartialEq, Eq, Debug, Structural)]
pub struct Vec2 {
    pub x: Scalar,
    pub y: Scalar,
}

/// A cell of the grid.
#[derive(Clone, Copy, PartialEq, Eq, Debug, Structural)]
pub struct IVec2 {
    pub x: i32,
    pub y: i32,
}

/// Both coordinates are finite.
pub open spec fn finite_point(p: Vec2) -> bool {
    p.x.finite() && p.y.finite()
}

/// The sum of two displacements.
pub open spec fn shifted(a: Vec2, b: Vec2) -> Vec2 {
    Vec2 { x: sum(a.x, b.x), y: sum(a.y, b.y) }
}

/// The displacement from `b` to `a`.
pub open spec fn displacement(a: Vec2, b: Vec2) -> Vec2 {
    Vec2 { x: difference(a.x, b.x), y: difference(a.y, b.y) }
}

/// A displacement stretched by a factor.
pub open spec fn scaled(a: Vec2, by: Scalar) -> Vec2 {
    Vec2 { x: product(a.x, by), y: product(a.y, by) }
}

/// The inner product.
pub open spec fn inner(a: Vec2, b: Vec2) -> Scalar {
    sum(product(a.x, b.x), product(a.y, b.y))
}

/// The length of a displacement.
pub open spec fn length_of(a: Vec2) -> Scalar {
    square_root(inner(a, a))
}

/// The distance between two points.
pub open spec fn gap(a: Vec2, b: Vec2) -> Scalar {
    length_of(displacement(a, b))
}

/// The point a fraction `t` of the way from `a` to `b`.
pub open spec fn between(a: Vec2, b: Vec2, t: Scalar) -> Vec2 {
    shifted(scaled(a, difference(one(), t)), scaled(b, t))
}

impl Vec2 {
    /// The point with these coordinates.
    pub fn new(x: Scalar, y: Scalar) -> (p: Vec2)
        ensures
            p == (Vec2 { x, y }),
    {
        Vec2 { x, y }
    }

    /// Both coordinates are finite.
    pub fn is_finite(self) -> (yes: bool)
        ensures
            yes == finite_point(self),
    {
        self.x.is_finite() && self.y.is_finite()
    }

    /// The sum of two displacements.
    pub fn plus(self, other: Vec2) -> (p: Vec2)
        ensures
            p == shifted(self, other),
    {
        Vec2 { x: self.x.plus(other.x), y: self.y.plus(other.y) }
    }

    /// The displacement from `other` to `self`.
    pub fn minus(self, other: Vec2) -> (p: Vec2)
        ensures
            p == displacement(self, other),
    {
        Vec2 { x: self.x.minus(other.x), y: self.y.minus(other.y) }
    }

    /// The displacement stretched by a factor.
    pub fn times(self, by: Scalar) -> (p: Vec2)
        ensures
            p == scaled(self, by),
    {
        Vec2 { x: self.x.times(by), y: self.y.times(by) }
    }

    /// The inner product.
    pub fn dot(self, other: Vec2) -> (r: Scalar)
        ensures
            r == inner(self, other),
    {
        self.x.times(other.x).plus(self.y.times(other.y))
    }

    /// The length of the displacement.
    pub fn length(self) -> (r: Scalar)
        ensures
            r == length_of(self),
    {
        self.dot(self).sqrt()
    }

    /// The distance to another point.
    pub fn distance(self, other: Vec2) -> (r: Scalar)
        ensures
            r == gap(self, other),
    {
        self.minus(other).length()
    }

    /// The point a fraction `t` of the way to another.
    pub fn lerp(self, other: Vec2, t: Scalar) -> (p: Vec2)
        ensures
            p == between(self, other, t),
    {
        self.times(one().minus(t)).plus(other.times(t))
    }
}

// ---------------------------------------------------------------------------
// Laws
// ---------------------------------------------------------------------------

/// Distances are those of the plane: two points a whole number apart along each
/// axis are as far apart as the hypotenuse says.
pub proof fn law_distances_are_pythagorean(x1: int, y1: int, x2: int, y2: int, c: int)
    requires
        0 <= x1 <= 0x1000,
        0 <= y1 <= 0x1000,
        0 <= x2 <= 0x1000,
        0 <= y2 <= 0x1000,
        0 <= c <= 0x1000,
        (x1 - x2) * (x1 - x2) + (y1 - y2) * (y1 - y2) == c * c,
    ensures
        gap(
            Vec2 { x: from_whole(x1), y: from_whole(y1) },
            Vec2 { x: from_whole(x2), y: from_whole(y2) },
        ) == from_whole(c),
{
    let dx = if x1 >= x2 { x1 - x2 } else { x2 - x1 };
    let dy = if y1 >= y2 { y1 - y2 } else { y2 - y1 };
    assert(dx * dx == (x1 - x2) * (x1 - x2) && dy * dy == (y1 - y2) * (y1 - y2)) by (nonlinear_arith)
        requires
            dx == x1 - x2 || dx == x2 - x1,
            dy == y1 - y2 || dy == y2 - y1,
    ;
    assert(0 <= dx * dx && 0 <= dy * dy && c * c <= 0x100_0000) by (nonlinear_arith)
        requires
            0 <= dx,
            0 <= dy,
            0 <= c <= 0x1000,
    ;
    lemma_axis(x1, x2, dx);
    lemma_axis(y1, y2, dy);
    lemma_whole_sum(dx * dx, dy * dy);
    lemma_whole_root(c);
}

proof fn lemma_axis(a: int, b: int, d: int)
    requires
        0 <= a <= 0x1000,
        0 <= b <= 0x1000,
        d == (if a >= b { a - b } else { b - a }),
        d * d <= 0x100_0000,
    ensures
        ({
            let x = difference(from_whole(a), from_whole(b));
            product(x, x) == from_whole(d * d)
        }),
{
    lemma_whole_difference(a, b);
    lemma_whole_is_exact(d);
    lemma_whole_product(d, d);
    lemma_square_of_opposite(from_whole(d));
}

/// Half the way between two points is their middle.
pub proof fn law_half_the_way_is_the_middle(x1: int, y1: int, x2: int, y2: int)
    requires
        0 <= x1,
        0 <= y1,
        0 <= x2,
        0 <= y2,
        x1 + x2 <= 0x80_0000,
        y1 + y2 <= 0x80_0000,
    ensures
        ({
            let a = Vec2 { x: from_whole(2 * x1), y: from_whole(2 * y1) };
            let b = Vec2 { x: from_whole(2 * x2), y: from_whole(2 * y2) };
            between(a, b, half()) == (Vec2 { x: from_whole(x1 + x2), y: from_whole(y1 + y2) })
        }),
{
    lemma_halves();
    lemma_half_of_twice(x1);
    lemma_half_of_twice(y1);
    lemma_half_of_twice(x2);
    lemma_half_of_twice(y2);
    lemma_whole_sum(x1, x2);
    lemma_whole_sum(y1, y2);
}

proof fn lemma_halves()
    ensures
        difference(one(), half()) == half(),
{
    lemma_one();
    lemma_half();
    assert(negated(half()).value() == -half().value());
    lemma_exact_sum(one(), negated(half()), half());
    lemma_value_orders(sum(one(), negated(half())), half());
}

proof fn lemma_half_of_twice(n: int)
    requires
        0 <= n <= 0x80_0000,
    ensures
        product(from_whole(2 * n), half()) == from_whole(n),
{
    lemma_whole_is_exact(2 * n);
    lemma_whole_is_exact(n);
    lemma_half();
    lemma_pow2_pos(149);
    let h = half().value();
    let u = unit();
    assert(((2 * n) * u) * h == (n * u) * u) by (nonlinear_arith)
        requires
            2 * h == u,
    ;
    reveal(product);
    lemma_fraction_rounds_exactly(from_whole(n).rank(), u);
}

} // verus!
