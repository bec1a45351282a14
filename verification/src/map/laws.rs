//! What holds of every board.

use crate::map::{
    board, buildable, canonical, cell_centre, centre_of, extents, geometry_text, good_lane, lanes_distance, lanes_text, length, location, middle, on_board,
    point_text, points_text, polyline_distance, reached, segment_distance, law_faultless_maps_are_playable, map_fault, tile_at, walked, LaneView, MapDefView, MapView, ZoneView,
};
use crate::message::{plain, PieceView};
use crate::order::{absolute, at_most, clamped, equal, half, largest, lemma_one, less, one, place, zero};
use crate::scalar::{
    difference, from_whole, half_up, lemma_dyadic, lemma_exact_sum, lemma_fraction_rounds_exactly, lemma_magnitude_increases,
    lemma_plus_zero, lemma_root_keeps_sign, lemma_rounded_is_nearest, lemma_rounding_error, lemma_rounding_ordered,
    lemma_self_quotient, lemma_square_keeps_sign, lemma_sum_between, lemma_sum_keeps_sign, lemma_sum_ordered, lemma_times_one,
    lemma_times_zero, lemma_value_orders, lemma_whole_is_exact, lemma_whole_minus_one, lemma_whole_product, lemma_zero_plus, magnitude,
    nearest_whole, negated, product, quotient, rounded, sum, unit, Scalar, INFINITE,
};
use crate::text::signed_decimal;
use crate::vector::{between, displacement, finite_point, gap, inner, scaled, shifted, IVec2, Vec2};
use vstd::arithmetic::power2::{lemma_pow2_adds, lemma_pow2_pos, lemma2_to64, pow2};
use vstd::prelude::*;

verus! {

/// Every waypoint is a finite point.
pub open spec fn finite_points(points: Seq<Vec2>) -> bool {
    forall|i: int| 0 <= i < points.len() ==> finite_point(#[trigger] points[i])
}

proof fn lemma_difference_is_a_number(a: Scalar, b: Scalar)
    requires
        a.finite(),
        b.finite(),
    ensures
        !difference(a, b).nan(),
{
    reveal(sum);
    let exact = a.value() + negated(b).value();
    if exact > 0 {
        lemma_rounded_is_nearest(exact, 1);
    } else if exact < 0 {
        lemma_rounded_is_nearest(-exact, 1);
    }
}

/// The distance between finite points is a number, and is not negative.
pub proof fn lemma_gap_is_a_number(a: Vec2, b: Vec2)
    requires
        finite_point(a),
        finite_point(b),
    ensures
        !gap(a, b).nan(),
        !gap(a, b).negative(),
{
    lemma_difference_is_a_number(a.x, b.x);
    lemma_difference_is_a_number(a.y, b.y);
    let d = displacement(a, b);
    lemma_square_keeps_sign(d.x);
    lemma_square_keeps_sign(d.y);
    lemma_sum_keeps_sign(product(d.x, d.x), product(d.y, d.y));
    lemma_root_keeps_sign(inner(d, d));
}

/// The distance walked never shrinks from one waypoint to a later one.
pub proof fn law_prefix_lengths_never_shrink(points: Seq<Vec2>, i: int, j: int)
    requires
        finite_points(points),
        0 <= i <= j < points.len(),
    ensures
        !walked(points, i).nan() && !walked(points, i).negative(),
        !walked(points, j).nan() && !walked(points, j).negative(),
        at_most(walked(points, i), walked(points, j)),
        place(walked(points, i)) <= place(walked(points, j)),
    decreases j,
{
    if j > 0 {
        lemma_gap_is_a_number(points[j - 1], points[j]);
        if i < j {
            law_prefix_lengths_never_shrink(points, i, j - 1);
        } else {
            law_prefix_lengths_never_shrink(points, j - 1, j - 1);
        }
        lemma_sum_keeps_sign(walked(points, j - 1), gap(points[j - 1], points[j]));
    }
}

proof fn lemma_nothing_reached(points: Seq<Vec2>, n: int)
    requires
        finite_points(points),
        2 <= points.len(),
        1 <= n <= points.len(),
        less(zero(), walked(points, 1)),
    ensures
        reached(points, zero(), n) == 0,
    decreases n,
{
    if n > 1 {
        law_prefix_lengths_never_shrink(points, 1, n - 1);
        lemma_nothing_reached(points, n - 1);
    }
}

proof fn lemma_no_way(a: Vec2, b: Vec2, t: Scalar)
    requires
        finite_point(a),
        finite_point(b),
        t.zero(),
    ensures
        equal(between(a, b, t).x, a.x),
        equal(between(a, b, t).y, a.y),
{
    lemma_one();
    lemma_plus_zero(one(), negated(t));
    assert(difference(one(), t) == one());
    lemma_times_one(a.x);
    lemma_times_one(a.y);
    lemma_times_zero(t, b.x);
    lemma_times_zero(t, b.y);
    lemma_plus_zero(a.x, product(b.x, t));
    lemma_plus_zero(a.y, product(b.y, t));
}

proof fn lemma_all_the_way(a: Vec2, b: Vec2)
    requires
        finite_point(a),
        finite_point(b),
    ensures
        equal(between(a, b, one()).x, b.x),
        equal(between(a, b, one()).y, b.y),
{
    lemma_one();
    let rest = difference(one(), one());
    lemma_whole_minus_one(1);
    crate::scalar::lemma_from_zero();
    lemma_times_one(b.x);
    lemma_times_one(b.y);
    lemma_times_zero(rest, a.x);
    lemma_times_zero(rest, a.y);
    lemma_zero_plus(product(a.x, rest), b.x);
    lemma_zero_plus(product(a.y, rest), b.y);
}

/// A creep that has not walked stands at the spawn point.
pub proof fn law_a_lane_starts_at_its_spawn_point(points: Seq<Vec2>)
    requires
        points.len() >= 2,
        finite_points(points),
        less(zero(), gap(points[0], points[1])),
    ensures
        equal(location(points, zero()).x, points[0].x),
        equal(location(points, zero()).y, points[0].y),
{
    let last = points.len() - 1;
    lemma_gap_is_a_number(points[0], points[1]);
    lemma_sum_keeps_sign(zero(), gap(points[0], points[1]));
    assert(walked(points, 0) == zero());
    assert(walked(points, 1) == sum(zero(), gap(points[0], points[1])));
    law_prefix_lengths_never_shrink(points, 0, last);
    assert(clamped(zero(), zero(), length(points)) == zero());
    lemma_nothing_reached(points, points.len() as int);
    let long = difference(walked(points, 1), zero());
    let none = difference(zero(), zero());
    assert(none.zero()) by {
        lemma_plus_zero(zero(), negated(zero()));
    }
    if less(zero(), long) {
        let t = quotient(none, long);
        assert(t.zero()) by {
            reveal(quotient);
            if long.finite() {
                assert(magnitude(0) == 0);
                lemma_magnitude_increases(0, long.rank());
                assert(magnitude(0) * pow2(149) == 0) by (nonlinear_arith)
                    requires
                        magnitude(0) == 0,
                ;
                crate::scalar::lemma_rounds_exactly(0);
                let m = magnitude(long.rank());
                lemma_fraction_rounds_exactly(0, m);
                assert(0 * m == 0) by (nonlinear_arith);
            }
        }
        lemma_no_way(points[0], points[1], t);
    } else {
        lemma_no_way(points[0], points[1], zero());
    }
}

/// A creep that has walked a whole lane stands at its last waypoint.
pub proof fn law_a_lane_ends_at_its_last_waypoint(points: Seq<Vec2>)
    requires
        points.len() >= 2,
        finite_points(points),
        length(points).finite(),
        less(walked(points, points.len() - 2), length(points)),
    ensures
        equal(location(points, length(points)).x, points.last().x),
        equal(location(points, length(points)).y, points.last().y),
{
    let last = points.len() - 1;
    let d = length(points);
    law_prefix_lengths_never_shrink(points, 0, last);
    law_prefix_lengths_never_shrink(points, last - 1, last);
    assert(clamped(d, zero(), d) == d);
    assert(reached(points, d, points.len() as int) == last);
    let start = walked(points, last - 1);
    let long = difference(d, start);
    lemma_value_orders(start, d);
    assert(negated(start).value() == -start.value());
    lemma_positive_difference(d, start);
    lemma_one();
    lemma_self_quotient(long);
    lemma_all_the_way(points[last - 1], points[last]);
}

proof fn lemma_positive_difference(high: Scalar, low: Scalar)
    requires
        high.finite(),
        low.finite(),
        !low.negative(),
        !high.negative(),
        low.value() < high.value(),
    ensures
        difference(high, low).finite(),
        less(zero(), difference(high, low)),
{
    // The difference is at least one unit, the smallest positive number, and at
    // most the larger operand.
    let least = Scalar { bits: 1 };
    assert(magnitude(0) == 0 && magnitude(1) == 1);
    assert(negated(low).value() == -low.value());
    if low.rank() > 0 {
        lemma_magnitude_increases(0, low.rank());
    }
    lemma_sum_between(high, negated(low), least, high);
}

/// A lane does not wrap: past its end it is its end.
pub proof fn law_past_the_end_is_the_end(points: Seq<Vec2>, dist: Scalar)
    requires
        points.len() >= 2,
        dist.finite(),
        length(points).finite(),
        less(zero(), length(points)),
        at_most(length(points), dist),
    ensures
        location(points, dist) == location(points, length(points)),
{
    let d = length(points);
    if !less(d, dist) {
        assert(dist == d);
    }
    assert(clamped(dist, zero(), d) == d);
    assert(clamped(d, zero(), d) == d);
}

/// A distance that is not a finite number reads as the spawn point.
pub proof fn law_a_lost_creep_stands_at_the_spawn_point(points: Seq<Vec2>, dist: Scalar)
    requires
        !dist.finite(),
    ensures
        location(points, dist) == points[0],
{
}

/// Nothing can be built off the board.
pub proof fn law_only_the_board_can_be_built_on(map: MapView, cell: IVec2)
    ensures
        buildable(map, cell) ==> on_board(map.tiles_x, map.tiles_y, cell),
{
}

/// Zones are decoration: they cannot make two peers refuse each other.
pub proof fn law_zones_are_decoration(map: MapView, zones: Seq<ZoneView>)
    ensures
        geometry_text(MapView { zones, ..map }) == geometry_text(map),
{
}

// ---------------------------------------------------------------------------
// Cells survive the trip to world space and back
// ---------------------------------------------------------------------------

proof fn lemma_half()
    ensures
        half().value() == pow2(148),
        half().finite(),
        !half().negative(),
{
    lemma_pow2_adds(23, 125);
    lemma2_to64();
    assert(magnitude(0x3F00_0000) == 0x80_0000 * pow2(125));
}

/// Half of a small whole number is exact.
proof fn lemma_middle(tiles: i32)
    requires
        1 <= tiles <= 0x10_0000,
    ensures
        middle(tiles).finite(),
        !middle(tiles).negative(),
        middle(tiles).value() == (tiles - 1) * pow2(148),
{
    let m: int = tiles - 1;
    lemma_one();
    lemma_whole_minus_one(tiles as int);
    assert(difference(from_whole(tiles as int), one()) == from_whole(m));
    lemma_whole_is_exact(m);
    lemma_half();
    let exact = lemma_dyadic(m, 148);
    let part = pow2(148) as int;
    let d = pow2(149) as int;
    lemma_pow2_pos(149);
    reveal(product);
    assert((m * d) * part == (m * part) * d) by (nonlinear_arith);
    lemma_fraction_rounds_exactly(exact.rank(), d);
}

/// A cell's offset from the middle of its row, in halves of a tile, is exact.
proof fn lemma_offset(at: i32, tiles: i32)
    requires
        0 <= at < tiles <= 0x10_0000,
    ensures
        difference(from_whole(at as int), middle(tiles)).finite(),
        difference(from_whole(at as int), middle(tiles)).value() == (2 * at - (tiles - 1)) * pow2(148),
{
    let m: int = tiles - 1;
    let k: int = 2 * at - m;
    let part = pow2(148) as int;
    lemma_middle(tiles);
    lemma_whole_is_exact(at as int);
    lemma_pow2_adds(1, 148);
    lemma2_to64();
    assert(unit() == 2 * part);
    let a = from_whole(at as int);
    let h = middle(tiles);
    assert(negated(h).value() == -h.value());
    assert(at * (2 * part) - m * part == k * part) by (nonlinear_arith)
        requires
            k == 2 * at - m,
    ;
    if k >= 0 {
        let c = lemma_dyadic(k, 148);
        lemma_exact_sum(a, negated(h), c);
    } else {
        let c = lemma_dyadic(-k, 148);
        assert(negated(c).value() == -c.value());
        assert(-((-k) * part) == k * part) by (nonlinear_arith);
        lemma_exact_sum(a, negated(h), negated(c));
    }
}

/// Scaling by a tile and back misses by at most an eighth.
proof fn lemma_there_and_back(size: int, s: int)
    requires
        0 < size <= 0x20_0000,
        s >= 8,
        rounded((size * pow2(148)) * s, pow2(149) as int) < INFINITE,
    ensures
        ({
            let w = magnitude(rounded((size * pow2(148)) * s, pow2(149) as int));
            let q = rounded(w * pow2(149), s);
            &&& q < INFINITE
            &&& (4 * size - 1) * pow2(146) <= magnitude(q) <= (4 * size + 1) * pow2(146)
        }),
{
    let half_tile = pow2(148) as int;
    let one = pow2(149) as int;
    let eighth = pow2(146) as int;
    lemma_pow2_adds(1, 148);
    lemma_pow2_adds(2, 146);
    lemma_pow2_adds(3, 146);
    lemma_pow2_pos(146);
    lemma2_to64();
    assert(one == 2 * half_tile && half_tile == 4 * eighth);
    let n = (size * half_tile) * s;
    assert(n >= 0) by (nonlinear_arith)
        requires
            n == (size * half_tile) * s,
            size > 0,
            half_tile > 0,
            s > 0,
    ;
    let r = rounded(n, one);
    let w = magnitude(r);
    let g = lemma_rounding_error(n, one);
    lemma_rounded_is_nearest(n, one);
    if r > 0 {
        lemma_magnitude_increases(0, r);
    }
    assert(magnitude(0) == 0);
    let ks = size * s;
    assert(n == ks * half_tile) by (nonlinear_arith)
        requires
            n == (size * half_tile) * s,
            ks == size * s,
    ;
    // In halves of a unit: the product is off by at most g halves.
    assert(-g <= 2 * w - ks <= g) by (nonlinear_arith)
        requires
            -g * one <= 2 * (w * one - n) <= g * one,
            one == 2 * half_tile,
            n == ks * half_tile,
            half_tile > 0,
    ;
    assert(ks >= s) by (nonlinear_arith)
        requires
            ks == size * s,
            size >= 1,
            s > 0,
    ;
    assert(ks <= 0x20_0000 * s) by (nonlinear_arith)
        requires
            ks == size * s,
            size <= 0x20_0000,
            s > 0,
    ;
    assert(4 * g <= s);
    let top = 4 * size + 1;
    let bottom = 4 * size - 1;
    let high = lemma_dyadic(top, 146);
    let low = lemma_dyadic(bottom, 146);
    assert(w * one <= (top * eighth) * s) by (nonlinear_arith)
        requires
            2 * w <= ks + g,
            4 * g <= s,
            ks == size * s,
            top == 4 * size + 1,
            one == 8 * eighth,
            eighth > 0,
    ;
    assert((bottom * eighth) * s <= w * one) by (nonlinear_arith)
        requires
            2 * w >= ks - g,
            4 * g <= s,
            ks == size * s,
            bottom == 4 * size - 1,
            one == 8 * eighth,
            eighth > 0,
    ;
    lemma_rounding_ordered(w * one, (top * eighth) * s, s);
    lemma_rounding_ordered((bottom * eighth) * s, w * one, s);
    lemma_fraction_rounds_exactly(high.rank(), s);
    lemma_fraction_rounds_exactly(low.rank(), s);
    let q = rounded(w * one, s);
    lemma_rounded_is_nearest(w * one, s);
    if q < high.rank() {
        lemma_magnitude_increases(q, high.rank());
    }
    if low.rank() < q {
        lemma_magnitude_increases(low.rank(), q);
    }
}

/// The quotient that a cell's centre gives back, to within an eighth.
proof fn lemma_offset_comes_back(k: int, tile_size: Scalar, offset: Scalar)
    requires
        -0x20_0000 <= k <= 0x20_0000,
        offset.finite(),
        offset.value() == k * pow2(148),
        tile_size.finite(),
        !tile_size.negative(),
        tile_size.value() >= 8,
        product(offset, tile_size).finite(),
    ensures
        quotient(product(offset, tile_size), tile_size).finite(),
        (4 * k - 1) * pow2(146) <= quotient(product(offset, tile_size), tile_size).value() <= (4 * k + 1) * pow2(146),
{
    let s = magnitude(tile_size.rank());
    let m = magnitude(offset.rank());
    let half_tile = pow2(148) as int;
    let eighth = pow2(146) as int;
    let one = pow2(149) as int;
    lemma_pow2_pos(148);
    lemma_pow2_pos(149);
    lemma_pow2_pos(146);
    assert(magnitude(0) == 0);
    if offset.rank() > 0 {
        lemma_magnitude_increases(0, offset.rank());
    }
    reveal(product);
    reveal(quotient);
    let w = product(offset, tile_size);
    let r = rounded(m * s, one);
    lemma_rounded_is_nearest(m * s, one);
    assert(w.rank() == r);
    let q = rounded(magnitude(r) * one, s);
    lemma_rounded_is_nearest(magnitude(r) * one, s);
    if k == 0 {
        assert(k * half_tile == 0) by (nonlinear_arith)
            requires
                k == 0,
        ;
        assert(m == 0);
        assert(m * s == 0) by (nonlinear_arith)
            requires
                m == 0,
        ;
        lemma_fraction_rounds_exactly(0, one);
        assert(0 * one == 0) by (nonlinear_arith);
        assert(magnitude(r) * one == 0) by (nonlinear_arith)
            requires
                magnitude(r) == 0,
        ;
        lemma_fraction_rounds_exactly(0, s);
        assert(0 * s == 0) by (nonlinear_arith);
        assert(q == 0);
        assert((4 * k - 1) * eighth == -eighth && (4 * k + 1) * eighth == eighth) by (nonlinear_arith)
            requires
                k == 0,
        ;
    } else if k > 0 {
        assert(k * half_tile > 0) by (nonlinear_arith)
            requires
                k > 0,
                half_tile > 0,
        ;
        assert(m == k * half_tile);
        lemma_there_and_back(k, s);
    } else {
        assert(k * half_tile < 0) by (nonlinear_arith)
            requires
                k < 0,
                half_tile > 0,
        ;
        assert((-k) * half_tile == -(k * half_tile)) by (nonlinear_arith);
        assert(m == (-k) * half_tile);
        lemma_there_and_back(-k, s);
        assert((4 * (-k) - 1) * eighth == -((4 * k + 1) * eighth)) by (nonlinear_arith);
        assert((4 * (-k) + 1) * eighth == -((4 * k - 1) * eighth)) by (nonlinear_arith);
    }
}

/// A number within an eighth of a whole one is nearest to it.
proof fn lemma_near_a_whole(at: int, x: Scalar)
    requires
        0 <= at <= 0x10_0000,
        x.finite(),
        (8 * at - 1) * pow2(146) <= x.value() <= (8 * at + 1) * pow2(146),
    ensures
        nearest_whole(x) == at,
{
    reveal(nearest_whole);
    let eighth = pow2(146) as int;
    lemma_pow2_adds(3, 146);
    lemma2_to64();
    lemma_pow2_pos(146);
    assert(unit() == 8 * eighth);
    let mag = magnitude(x.rank());
    assert(magnitude(0) == 0);
    if x.rank() > 0 {
        lemma_magnitude_increases(0, x.rank());
    }
    let d = 2 * unit();
    if at == 0 {
        assert(mag <= eighth) by {
            assert((8 * at - 1) * eighth == -eighth && (8 * at + 1) * eighth == eighth) by (nonlinear_arith)
                requires
                    at == 0,
            ;
        }
        vstd::arithmetic::div_mod::lemma_basic_div(2 * mag + unit(), d);
        assert(half_up(mag) == 0);
    } else {
        assert((8 * at - 1) * eighth > 0) by (nonlinear_arith)
            requires
                at >= 1,
                eighth > 0,
        ;
        let a8 = at * eighth;
        assert((8 * at - 1) * eighth == 8 * a8 - eighth && (8 * at + 1) * eighth == 8 * a8 + eighth && at * d == 16 * a8)
            by (nonlinear_arith)
            requires
                d == 16 * eighth,
                a8 == at * eighth,
        ;
        assert(8 * a8 - eighth <= mag <= 8 * a8 + eighth);
        let rest = 2 * mag + unit() - at * d;
        vstd::arithmetic::div_mod::lemma_fundamental_div_mod_converse(2 * mag + unit(), d, at, rest);
        assert(half_up(mag) == at);
    }
}

/// The cell of a cell's centre is the cell, along each side of the board.
///
/// Sides of more than two to the power of 20 tiles are left out, because single
/// precision no longer tells neighbouring centres apart, and so are tiles so
/// small, or so large, that a centre is not represented.
pub proof fn law_cells_survive_the_world(at: i32, tiles: i32, tile_size: Scalar)
    requires
        0 <= at < tiles <= 0x10_0000,
        tile_size.finite(),
        !tile_size.negative(),
        tile_size.value() >= 8,
        centre_of(at, tiles, tile_size).finite(),
    ensures
        tile_at(centre_of(at, tiles, tile_size), tiles, tile_size) == at,
{
    let m: int = tiles - 1;
    let k: int = 2 * at - m;
    let eighth = pow2(146) as int;
    let half_tile = pow2(148) as int;
    lemma_pow2_adds(2, 146);
    lemma_pow2_pos(146);
    lemma2_to64();
    assert(half_tile == 4 * eighth);
    lemma_middle(tiles);
    lemma_offset(at, tiles);
    let offset = difference(from_whole(at as int), middle(tiles));
    lemma_offset_comes_back(k, tile_size, offset);
    let q = quotient(centre_of(at, tiles, tile_size), tile_size);
    let h = middle(tiles);
    let high = lemma_dyadic(8 * at + 1, 146);
    assert((4 * k + 1) * eighth + m * half_tile == (8 * at + 1) * eighth) by (nonlinear_arith)
        requires
            k == 2 * at - m,
            half_tile == 4 * eighth,
    ;
    assert((4 * k - 1) * eighth + m * half_tile == (8 * at - 1) * eighth) by (nonlinear_arith)
        requires
            k == 2 * at - m,
            half_tile == 4 * eighth,
    ;
    let low = if at == 0 {
        let c = lemma_dyadic(1, 146);
        assert(negated(c).value() == -c.value());
        assert((8 * at - 1) * eighth == -(1 * eighth)) by (nonlinear_arith)
            requires
                at == 0,
        ;
        negated(c)
    } else {
        lemma_dyadic(8 * at - 1, 146)
    };
    lemma_sum_between(q, h, low, high);
    let x = sum(q, h);
    lemma_value_orders(low, x);
    lemma_value_orders(x, high);
    lemma_near_a_whole(at as int, x);
}

// ---------------------------------------------------------------------------
// Where towers may stand
// ---------------------------------------------------------------------------

/// The nearest of the first `n` segments is no farther than any of them.
proof fn lemma_nearest_segment(points: Seq<Vec2>, p: Vec2, n: int)
    ensures
        !polyline_distance(points, p, n).nan(),
        forall|j: int|
            0 <= j < n && !(#[trigger] segment_distance(points[j], points[j + 1], p)).nan() ==> at_most(
                polyline_distance(points, p, n),
                segment_distance(points[j], points[j + 1], p),
            ),
        polyline_distance(points, p, n) == largest() || exists|j: int|
            0 <= j < n && polyline_distance(points, p, n) == #[trigger] segment_distance(points[j], points[j + 1], p),
    decreases n,
{
    if n > 0 {
        lemma_nearest_segment(points, p, n - 1);
        let d = segment_distance(points[n - 1], points[(n - 1) + 1], p);
        let before = polyline_distance(points, p, n - 1);
        if before != largest() {
            let j = choose|j: int|
                0 <= j < n - 1 && before == #[trigger] segment_distance(points[j], points[j + 1], p);
            assert(before == segment_distance(points[j], points[j + 1], p));
        }
        assert(polyline_distance(points, p, n) == d || polyline_distance(points, p, n) == before);
        assert forall|j: int| 0 <= j < n && !(#[trigger] segment_distance(points[j], points[j + 1], p)).nan() implies at_most(
            polyline_distance(points, p, n),
            segment_distance(points[j], points[j + 1], p),
        ) by {
            if j < n - 1 {
                assert(at_most(before, segment_distance(points[j], points[j + 1], p)));
            }
        }
    }
}

proof fn lemma_nearest_lane(lanes: Seq<LaneView>, p: Vec2, n: int, i: int, j: int)
    requires
        0 <= i < n,
        0 <= j < lanes[i].points.len() - 1,
        !segment_distance(lanes[i].points[j], lanes[i].points[j + 1], p).nan(),
    ensures
        at_most(lanes_distance(lanes, p, n), segment_distance(lanes[i].points[j], lanes[i].points[j + 1], p)),
    decreases n,
{
    lemma_nearest_segment(lanes[n - 1].points, p, lanes[n - 1].points.len() - 1);
    lemma_lanes_distance(lanes, p, n - 1);
    if i < n - 1 {
        lemma_nearest_lane(lanes, p, n - 1, i, j);
    }
}

proof fn lemma_lanes_distance(lanes: Seq<LaneView>, p: Vec2, n: int)
    ensures
        !lanes_distance(lanes, p, n).nan(),
        lanes_distance(lanes, p, n) == largest() || exists|i: int, j: int|
            0 <= i < n && 0 <= j < lanes[i].points.len() - 1 && lanes_distance(lanes, p, n) == #[trigger] segment_distance(
                lanes[i].points[j],
                lanes[i].points[j + 1],
                p,
            ),
    decreases n,
{
    if n > 0 {
        lemma_lanes_distance(lanes, p, n - 1);
        let points = lanes[n - 1].points;
        lemma_nearest_segment(points, p, points.len() - 1);
        let before = lanes_distance(lanes, p, n - 1);
        let d = polyline_distance(points, p, points.len() - 1);
        if lanes_distance(lanes, p, n) == d && d != largest() {
            let j = choose|j: int|
                0 <= j < points.len() - 1 && d == #[trigger] segment_distance(points[j], points[j + 1], p);
            assert(d == segment_distance(lanes[n - 1].points[j], lanes[n - 1].points[j + 1], p));
        }
    }
}

/// A tower stands clear of every lane: a cell that may be built on is on the
/// board, and its centre is farther than the clearance from every segment of
/// every lane, not of the first lane or the nearest one alone.
pub proof fn law_a_tower_stands_clear_of_every_lane(map: MapView, cell: IVec2, i: int, j: int)
    requires
        buildable(map, cell),
        0 <= i < map.lanes.len(),
        0 <= j < map.lanes[i].points.len() - 1,
    ensures
        0 <= cell.x < map.tiles_x,
        0 <= cell.y < map.tiles_y,
        ({
            let d = segment_distance(map.lanes[i].points[j], map.lanes[i].points[j + 1], cell_centre(map, cell));
            d.nan() || less(map.path_clearance, d)
        }),
{
    let p = cell_centre(map, cell);
    if !segment_distance(map.lanes[i].points[j], map.lanes[i].points[j + 1], p).nan() {
        lemma_nearest_lane(map.lanes, p, map.lanes.len() as int, i, j);
    }
}

/// The path is the only thing that may not be built on: a cell of the board that
/// is farther than the clearance from every segment of every lane may be.
pub proof fn law_only_the_path_is_forbidden(map: MapView, cell: IVec2)
    requires
        0 <= cell.x < map.tiles_x,
        0 <= cell.y < map.tiles_y,
        less(map.path_clearance, largest()),
        forall|i: int, j: int|
            0 <= i < map.lanes.len() && 0 <= j < map.lanes[i].points.len() - 1 ==> less(
                map.path_clearance,
                #[trigger] segment_distance(map.lanes[i].points[j], map.lanes[i].points[j + 1], cell_centre(map, cell)),
            ),
    ensures
        buildable(map, cell),
{
    lemma_lanes_distance(map.lanes, cell_centre(map, cell), map.lanes.len() as int);
}

/// The distance to the lanes is the distance to the nearest of them: no lane is
/// nearer, and one is as near as that.
pub proof fn law_the_nearest_lane_decides(lanes: Seq<LaneView>, p: Vec2, i: int)
    requires
        0 <= i < lanes.len(),
    ensures
        ({
            let nearest = lanes_distance(lanes, p, lanes.len() as int);
            &&& at_most(nearest, polyline_distance(lanes[i].points, p, lanes[i].points.len() - 1))
            &&& exists|k: int|
                0 <= k < lanes.len() && nearest == polyline_distance(
                    (#[trigger] lanes[k]).points,
                    p,
                    lanes[k].points.len() - 1,
                )
        }),
{
    lemma_which_lane(lanes, p, lanes.len() as int, i);
}

proof fn lemma_which_lane(lanes: Seq<LaneView>, p: Vec2, n: int, i: int)
    requires
        0 <= i < n <= lanes.len(),
    ensures
        at_most(lanes_distance(lanes, p, n), polyline_distance(lanes[i].points, p, lanes[i].points.len() - 1)),
        exists|k: int|
            0 <= k < n && lanes_distance(lanes, p, n) == polyline_distance(
                (#[trigger] lanes[k]).points,
                p,
                lanes[k].points.len() - 1,
            ),
    decreases n,
{
    let points = lanes[n - 1].points;
    let d = polyline_distance(points, p, points.len() - 1);
    lemma_nearest_segment(points, p, points.len() - 1);
    lemma_no_farther_than_largest(points, p, points.len() - 1);
    lemma_lanes_distance(lanes, p, n - 1);
    if n > 1 {
        lemma_which_lane(lanes, p, n - 1, if i < n - 1 { i } else { n - 2 });
    } else {
        assert(lanes_distance(lanes, p, 0) == largest());
        assert(lanes_distance(lanes, p, 1).position() == d.position());
        if !less(d, largest()) {
            lemma_at_largest(points, p, points.len() - 1);
        }
    }
    if lanes_distance(lanes, p, n) == d {
        assert(lanes[n - 1].points == points);
    }
}

proof fn lemma_no_farther_than_largest(points: Seq<Vec2>, p: Vec2, n: int)
    ensures
        at_most(polyline_distance(points, p, n), largest()),
    decreases n,
{
    if n > 0 {
        lemma_no_farther_than_largest(points, p, n - 1);
    }
}

proof fn lemma_at_largest(points: Seq<Vec2>, p: Vec2, n: int)
    requires
        polyline_distance(points, p, n).position() == largest().position(),
    ensures
        polyline_distance(points, p, n) == largest(),
{
}

/// A segment ends at its ends: its distance from a point is the distance to a
/// point part of the way along it, neither before its start nor past its end.
pub proof fn law_a_segment_ends_at_its_ends(a: Vec2, b: Vec2, p: Vec2)
    requires
        ({
            let ab = displacement(b, a);
            !quotient(inner(displacement(p, a), ab), inner(ab, ab)).nan()
        }),
    ensures
        exists|t: Scalar|
            at_most(zero(), t) && at_most(t, one()) && segment_distance(a, b, p) == gap(
                p,
                #[trigger] shifted(a, scaled(displacement(b, a), t)),
            ),
        ({
            let ab = displacement(b, a);
            let along = inner(displacement(p, a), ab);
            let square = inner(ab, ab);
            &&& less(zero(), square) && less(quotient(along, square), zero()) ==> segment_distance(a, b, p) == gap(
                p,
                shifted(a, scaled(ab, zero())),
            )
            &&& less(zero(), square) && less(one(), quotient(along, square)) ==> segment_distance(a, b, p) == gap(
                p,
                shifted(a, scaled(ab, one())),
            )
        }),
{
    let ab = displacement(b, a);
    let square = inner(ab, ab);
    let t = if less(zero(), square) {
        clamped(quotient(inner(displacement(p, a), ab), square), zero(), one())
    } else {
        zero()
    };
    assert(segment_distance(a, b, p) == gap(p, shifted(a, scaled(displacement(b, a), t))));
}

/// The grid is centred on the origin: the cells an equal way from either side of
/// the board lie an equal way from its middle, on opposite sides.
pub proof fn law_the_grid_is_centred(at: i32, tiles: i32, tile_size: Scalar)
    requires
        0 <= at < tiles <= 0x10_0000,
        tile_size.finite(),
    ensures
        centre_of(at, tiles, tile_size).position() == -centre_of((tiles - 1 - at) as i32, tiles, tile_size).position(),
{
    let other = (tiles - 1 - at) as i32;
    lemma_offset(at, tiles);
    lemma_offset(other, tiles);
    let x = difference(from_whole(at as int), middle(tiles));
    let y = difference(from_whole(other as int), middle(tiles));
    let part = pow2(148) as int;
    assert((2 * at - (tiles - 1)) * part == -((2 * other - (tiles - 1)) * part)) by (nonlinear_arith)
        requires
            other == tiles - 1 - at,
    ;
    assert(negated(y).value() == -y.value());
    lemma_value_orders(x, negated(y));
    reveal(product);
    assert(x.rank() == y.rank());
    if x.zero() {
        lemma_times_zero(x, tile_size);
        lemma_times_zero(y, tile_size);
    }
    lemma_pow2_pos(149);
    lemma_rounded_is_nearest(magnitude(x.rank()) * magnitude(tile_size.rank()), pow2(149) as int);
}

// ---------------------------------------------------------------------------
// Where creeps walk
// ---------------------------------------------------------------------------

/// The last waypoint reached is the last one no farther along than the distance.
proof fn lemma_reached(points: Seq<Vec2>, d: Scalar, n: int)
    requires
        finite_points(points),
        1 <= n <= points.len(),
        !d.nan(),
        !d.negative(),
    ensures
        0 <= reached(points, d, n) < n,
        at_most(walked(points, reached(points, d, n)), d),
        forall|i: int| reached(points, d, n) < i < n ==> less(d, #[trigger] walked(points, i)),
    decreases n,
{
    law_prefix_lengths_never_shrink(points, n - 1, n - 1);
    if n > 1 && place(walked(points, n - 1)) > place(d) {
        lemma_reached(points, d, n - 1);
    }
}

/// A part of a whole is at most one whole.
proof fn lemma_part_of(part: Scalar, all: Scalar)
    requires
        !part.nan(),
        !part.negative(),
        all.finite(),
        less(zero(), all),
        at_most(part, all),
    ensures
        at_most(zero(), quotient(part, all)),
        at_most(quotient(part, all), one()),
{
    lemma_one();
    lemma_self_quotient(all);
    reveal(quotient);
    let m = magnitude(part.rank());
    let n = magnitude(all.rank());
    assert(magnitude(0) == 0);
    lemma_magnitude_increases(0, all.rank());
    if part.rank() > 0 {
        lemma_magnitude_increases(0, part.rank());
    }
    if part.rank() < all.rank() {
        lemma_magnitude_increases(part.rank(), all.rank());
    }
    lemma_pow2_pos(149);
    let d = pow2(149) as int;
    assert(m * d <= n * d) by (nonlinear_arith)
        requires
            m <= n,
            d > 0,
    ;
    lemma_rounding_ordered(m * d, n * d, n);
    lemma_rounded_is_nearest(m * d, n);
    lemma_rounded_is_nearest(n * d, n);
}

/// A creep stands on its lane: between the two waypoints it has walked to, the
/// one behind it and the one ahead, and neither short of the one nor past the
/// other.
pub proof fn law_a_creep_stands_on_its_lane(points: Seq<Vec2>, dist: Scalar)
    requires
        points.len() >= 2,
        finite_points(points),
        length(points).finite(),
        dist.finite(),
        at_most(zero(), dist),
        at_most(dist, length(points)),
        !dist.negative(),
    ensures
        exists|i: int, t: Scalar|
            0 <= i < points.len() - 1 && at_most(walked(points, i), dist) && at_most(dist, walked(points, i + 1)) && at_most(
                zero(),
                t,
            ) && at_most(t, one()) && location(points, dist) == #[trigger] between(points[i], points[i + 1], t),
{
    let n = points.len() as int;
    assert(clamped(dist, zero(), length(points)) == dist);
    lemma_reached(points, dist, n);
    let last = reached(points, dist, n);
    let i = if last > n - 2 { n - 2 } else { last };
    law_prefix_lengths_never_shrink(points, i, i + 1);
    law_prefix_lengths_never_shrink(points, i + 1, n - 1);
    assert(at_most(walked(points, i), dist));
    if last == i {
        assert(less(dist, walked(points, i + 1)));
    }
    assert(at_most(dist, walked(points, i + 1)));
    let start = walked(points, i);
    let end = walked(points, i + 1);
    let long = difference(end, start);
    let t = if less(zero(), long) { quotient(difference(dist, start), long) } else { zero() };
    if less(zero(), long) {
        assert(start.finite() && end.finite());
        lemma_value_orders(start, end);
        lemma_value_orders(dist, start);
        let part = difference(dist, start);
        lemma_sum_ordered(negated(start), dist, end);
        lemma_sum_swaps(dist, negated(start));
        lemma_sum_swaps(end, negated(start));
        if start.value() < dist.value() {
            lemma_positive_difference(dist, start);
        } else {
            assert(part.zero() && !part.negative()) by {
                reveal(sum);
                lemma_value_orders(dist, start);
                assert(negated(start).value() == -start.value());
                crate::scalar::lemma_rounds_exactly(0);
                assert(magnitude(0) == 0);
            }
        }
        if start.value() < end.value() {
            lemma_positive_difference(end, start);
        }
        lemma_part_of(part, long);
    }
    assert(location(points, dist) == between(points[i], points[i + 1], t));
}

proof fn lemma_sum_swaps(a: Scalar, b: Scalar)
    requires
        a.finite(),
        b.finite(),
    ensures
        sum(a, b).position() == sum(b, a).position(),
        sum(a, b).nan() == sum(b, a).nan(),
{
    reveal(sum);
}

/// A lane passes through its waypoints: a creep that has walked as far as one
/// stands there.
pub proof fn law_a_lane_passes_its_waypoints(points: Seq<Vec2>, i: int)
    requires
        points.len() >= 2,
        finite_points(points),
        length(points).finite(),
        0 <= i < points.len() - 1,
        less(walked(points, i), walked(points, i + 1)),
    ensures
        equal(location(points, walked(points, i)).x, points[i].x),
        equal(location(points, walked(points, i)).y, points[i].y),
{
    let n = points.len() as int;
    let d = walked(points, i);
    law_prefix_lengths_never_shrink(points, i, n - 1);
    law_prefix_lengths_never_shrink(points, i + 1, n - 1);
    assert(clamped(d, zero(), length(points)) == d);
    lemma_reached(points, d, n);
    let last = reached(points, d, n);
    if last < i {
        assert(less(d, walked(points, i)));
    }
    if last > i {
        law_prefix_lengths_never_shrink(points, i + 1, last);
    }
    let none = difference(d, d);
    assert(none.zero()) by {
        reveal(sum);
        assert(negated(d).value() == -d.value());
        crate::scalar::lemma_rounds_exactly(0);
        assert(magnitude(0) == 0);
    }
    let long = difference(walked(points, i + 1), d);
    let t = if less(zero(), long) { quotient(none, long) } else { zero() };
    if less(zero(), long) {
        assert(t.zero()) by {
            reveal(quotient);
            if long.finite() {
                assert(magnitude(0) == 0);
                lemma_magnitude_increases(0, long.rank());
                assert(magnitude(0) * pow2(149) == 0) by (nonlinear_arith)
                    requires
                        magnitude(0) == 0,
                ;
                let m = magnitude(long.rank());
                lemma_fraction_rounds_exactly(0, m);
                assert(0 * m == 0) by (nonlinear_arith);
            }
        }
    }
    lemma_no_way(points[i], points[i + 1], t);
}

// ---------------------------------------------------------------------------
// The board as a whole
// ---------------------------------------------------------------------------

/// The board is as wide as its tiles: twice half of it is all of them, side by side.
pub proof fn law_the_board_is_as_wide_as_its_tiles(tiles_x: i32, tiles_y: i32, tile: int)
    requires
        0 <= tiles_x,
        0 <= tiles_y,
        0 <= tile <= 0x100_0000,
        tiles_x * tile <= 0x100_0000,
        tiles_y * tile <= 0x100_0000,
        tiles_x <= 0x100_0000,
        tiles_y <= 0x100_0000,
    ensures
        2 * extents(tiles_x, tiles_y, from_whole(tile)).x.value() == tiles_x * tile * unit(),
        2 * extents(tiles_x, tiles_y, from_whole(tile)).y.value() == tiles_y * tile * unit(),
{
    lemma_whole_product(tiles_x as int, tile);
    lemma_whole_product(tiles_y as int, tile);
    assert(tiles_x * tile >= 0 && tiles_y * tile >= 0) by (nonlinear_arith)
        requires
            tiles_x >= 0,
            tiles_y >= 0,
            tile >= 0,
    ;
    lemma_half_of(tiles_x * tile);
    lemma_half_of(tiles_y * tile);
}

proof fn lemma_half_of(n: int)
    requires
        0 <= n <= 0x100_0000,
    ensures
        2 * product(from_whole(n), half()).value() == n * unit(),
{
    lemma_whole_is_exact(n);
    lemma_half();
    lemma_pow2_adds(1, 148);
    lemma2_to64();
    let part = pow2(148) as int;
    let d = pow2(149) as int;
    lemma_pow2_pos(149);
    if n < 0x100_0000 {
        let exact = lemma_dyadic(n, 148);
        reveal(product);
        assert((n * d) * part == (n * part) * d) by (nonlinear_arith);
        lemma_fraction_rounds_exactly(exact.rank(), d);
        assert(2 * (n * part) == n * (2 * part)) by (nonlinear_arith);
    } else {
        let exact = from_whole(0x80_0000);
        lemma_whole_is_exact(0x80_0000);
        reveal(product);
        assert((n * d) * part == (n * part) * d) by (nonlinear_arith);
        assert(0x80_0000 * d == n * part) by (nonlinear_arith)
            requires
                d == 2 * part,
                n == 0x100_0000,
        ;
        lemma_fraction_rounds_exactly(exact.rank(), d);
        assert(2 * (n * part) == n * (2 * part)) by (nonlinear_arith);
    }
}

/// Two lists of lanes have the same names, and as many waypoints under each.
pub open spec fn alike(a: Seq<LaneView>, b: Seq<LaneView>) -> bool {
    a.len() == b.len() && forall|i: int|
        0 <= i < a.len() ==> (#[trigger] a[i]).name == b[i].name && a[i].points.len() == b[i].points.len()
}

/// Two points are the same place, as far as they are anywhere: the two zeros are
/// one.
pub open spec fn same_place(p: Vec2, q: Vec2) -> bool {
    &&& p.x.finite() && q.x.finite() ==> p.x.position() == q.x.position()
    &&& p.y.finite() && q.y.finite() ==> p.y.position() == q.y.position()
}

/// Everything a creep walks by shows in what peers compare: boards that compare
/// equal, with the same names for their lanes and as many waypoints on each, have
/// the same tiles, the same goal, and every waypoint in the same place.
pub proof fn law_every_waypoint_shows(a: MapView, b: MapView, i: int, j: int)
    requires
        geometry_text(a) == geometry_text(b),
        alike(a.lanes, b.lanes),
        0 <= i < a.lanes.len(),
        0 <= j < a.lanes[i].points.len(),
    ensures
        a.tile_size == b.tile_size,
        same_place(a.goal.centre, b.goal.centre),
        same_place(a.goal.half, b.goal.half),
        same_place(a.lanes[i].points[j], b.lanes[i].points[j]),
{
    let n = a.lanes.len() as int;
    let head = |m: MapView|
        plain(m.id + "|"@ + signed_decimal(m.tiles_x as int) + "x"@ + signed_decimal(m.tiles_y as int) + "|"@)
            + seq![PieceView::Number(m.tile_size)] + plain("|"@ + m.goal.name + "|"@) + point_text(m.goal.centre)
            + plain("|"@) + point_text(m.goal.half) + plain(";"@);
    let x = head(a);
    let y = head(b);
    assert(x.len() == 15 && y.len() == 15);
    assert(geometry_text(a) == x + lanes_text(a.lanes, n));
    assert(geometry_text(b) == y + lanes_text(b.lanes, n));
    let s = geometry_text(a);
    let t = geometry_text(b);
    assert forall|k: int| 0 <= k < 15 implies x[k] == y[k] by {
        assert(s[k] == x[k]);
        assert(t[k] == y[k]);
    }
    assert(x[1] == PieceView::Number(a.tile_size));
    assert(y[1] == PieceView::Number(b.tile_size));
    assert(x[4] == PieceView::Literal(canonical(a.goal.centre.x)));
    assert(y[4] == PieceView::Literal(canonical(b.goal.centre.x)));
    assert(x[6] == PieceView::Literal(canonical(a.goal.centre.y)));
    assert(y[6] == PieceView::Literal(canonical(b.goal.centre.y)));
    assert(x[10] == PieceView::Literal(canonical(a.goal.half.x)));
    assert(y[10] == PieceView::Literal(canonical(b.goal.half.x)));
    assert(x[12] == PieceView::Literal(canonical(a.goal.half.y)));
    assert(y[12] == PieceView::Literal(canonical(b.goal.half.y)));
    assert(lanes_text(a.lanes, n) =~= s.subrange(15, s.len() as int));
    assert(lanes_text(b.lanes, n) =~= t.subrange(15, t.len() as int));
    lemma_lanes_show(a.lanes, b.lanes, n, i, j);
}

proof fn lemma_points_length(points: Seq<Vec2>, n: int)
    requires
        0 <= n,
    ensures
        points_text(points, n).len() == 5 * n,
    decreases n,
{
    if n > 0 {
        lemma_points_length(points, n - 1);
    }
}

proof fn lemma_points_show(a: Seq<Vec2>, b: Seq<Vec2>, n: int, j: int)
    requires
        0 <= j < n,
        points_text(a, n) == points_text(b, n),
    ensures
        same_place(a[j], b[j]),
    decreases n,
{
    lemma_points_length(a, n - 1);
    lemma_points_length(b, n - 1);
    let s = points_text(a, n);
    let t = points_text(b, n);
    let at = 5 * (n - 1);
    if j == n - 1 {
        assert(s[at + 1] == PieceView::Literal(canonical(a[j].x)));
        assert(t[at + 1] == PieceView::Literal(canonical(b[j].x)));
        assert(s[at + 3] == PieceView::Literal(canonical(a[j].y)));
        assert(t[at + 3] == PieceView::Literal(canonical(b[j].y)));
    } else {
        assert(points_text(a, n - 1) =~= s.subrange(0, at));
        assert(points_text(b, n - 1) =~= t.subrange(0, at));
        lemma_points_show(a, b, n - 1, j);
    }
}

proof fn lemma_lanes_length(a: Seq<LaneView>, b: Seq<LaneView>, n: int)
    requires
        alike(a, b),
        0 <= n <= a.len(),
    ensures
        lanes_text(a, n).len() == lanes_text(b, n).len(),
    decreases n,
{
    if n > 0 {
        lemma_lanes_length(a, b, n - 1);
        lemma_points_length(a[n - 1].points, a[n - 1].points.len() as int);
        lemma_points_length(b[n - 1].points, b[n - 1].points.len() as int);
    }
}

proof fn lemma_lanes_show(a: Seq<LaneView>, b: Seq<LaneView>, n: int, i: int, j: int)
    requires
        alike(a, b),
        0 <= i < n <= a.len(),
        0 <= j < a[i].points.len(),
        lanes_text(a, n) == lanes_text(b, n),
    ensures
        same_place(a[i].points[j], b[i].points[j]),
    decreases n,
{
    lemma_lanes_length(a, b, n - 1);
    let s = lanes_text(a, n);
    let t = lanes_text(b, n);
    let at = lanes_text(a, n - 1).len() as int;
    let p = a[n - 1].points;
    let q = b[n - 1].points;
    lemma_points_length(p, p.len() as int);
    lemma_points_length(q, q.len() as int);
    if i == n - 1 {
        assert(p.len() == q.len());
        let end = at + 1 + 5 * p.len();
        assert(points_text(p, p.len() as int) =~= s.subrange(at + 1, end));
        assert(points_text(q, q.len() as int) =~= t.subrange(at + 1, end));
        lemma_points_show(p, q, p.len() as int, j);
    } else {
        assert(lanes_text(a, n - 1) =~= s.subrange(0, at));
        assert(lanes_text(b, n - 1) =~= t.subrange(0, at));
        lemma_lanes_show(a, b, n - 1, i, j);
    }
}

/// A map that passes can be played: it has tiles and lanes, and every lane runs over
/// finite points of the board from within a tile of its spawn to within a tile of
/// the goal, and is longer than a tile; so a map without one of these is refused.
pub proof fn law_a_map_that_passes_can_be_walked(def: MapDefView, i: int, j: int)
    requires
        map_fault(def) is None,
    ensures
        def.tiles_x >= 1 && def.tiles_y >= 1,
        less(zero(), def.tile_size),
        less(zero(), def.path_clearance),
        less(zero(), def.goal.half.x) && less(zero(), def.goal.half.y),
        def.lanes.len() >= 1,
        0 <= i < def.lanes.len() ==> {
            let points = def.lanes[i].waypoints;
            let most = extents(def.tiles_x, def.tiles_y, def.tile_size);
            &&& points.len() >= 2
            &&& !less(def.tile_size, gap(def.lanes[i].spawn, points[0]))
            &&& !less(def.tile_size, gap(points[points.len() - 1], def.goal.centre))
            &&& less(def.tile_size, length(points))
            &&& 0 <= j < points.len() ==> {
                &&& points[j].x.finite() && points[j].y.finite()
                &&& !less(most.x, points[j].x) && !less(points[j].x, negated(most.x))
                &&& !less(most.y, points[j].y) && !less(points[j].y, negated(most.y))
            }
        },
{
    law_faultless_maps_are_playable(def);
    if 0 <= i < def.lanes.len() {
        assert(good_lane(def, i));
        let points = def.lanes[i].waypoints;
        if 0 <= j < points.len() {
            assert(finite_point(points[j]));
        }
    }
}

/// A map with tiles and lanes, whose lanes each have two waypoints or more, run over
/// finite points of the board from within a tile of their spawn to within a tile of
/// a finite goal, and are longer than a tile, passes.
pub proof fn law_a_map_that_can_be_walked_passes(def: MapDefView)
    requires
        def.tiles_x >= 1 && def.tiles_y >= 1,
        less(zero(), def.tile_size),
        less(zero(), def.path_clearance),
        def.lanes.len() >= 1,
        less(zero(), def.goal.half.x) && less(zero(), def.goal.half.y),
        finite_point(def.goal.half) && finite_point(def.goal.centre),
        forall|i: int|
            0 <= i < def.lanes.len() ==> {
                let points = (#[trigger] def.lanes[i]).waypoints;
                &&& points.len() >= 2
                &&& !less(def.tile_size, gap(def.lanes[i].spawn, points[0]))
                &&& !less(def.tile_size, gap(points[points.len() - 1], def.goal.centre))
                &&& less(def.tile_size, length(points))
            },
        forall|i: int, j: int|
            0 <= i < def.lanes.len() && 0 <= j < def.lanes[i].waypoints.len() ==> {
                let p = #[trigger] def.lanes[i].waypoints[j];
                let most = extents(def.tiles_x, def.tiles_y, def.tile_size);
                p.x.finite() && p.y.finite() && !less(most.x, absolute(p.x)) && !less(most.y, absolute(p.y))
            },
    ensures
        map_fault(def) is None,
{
    assert forall|i: int| 0 <= i < def.lanes.len() implies good_lane(def, i) by {
        let lane = def.lanes[i];
        assert(lane.waypoints.len() >= 2);
        assert forall|j: int| 0 <= j < lane.waypoints.len() implies finite_point(#[trigger] lane.waypoints[j]) by {
            assert(def.lanes[i].waypoints[j].x.finite());
        }
    }
    law_faultless_maps_are_playable(def);
}

/// The distance from a point inside a segment's reach is the distance to where it
/// falls on the segment.
pub proof fn law_a_point_falls_on_its_segment(a: Vec2, b: Vec2, p: Vec2)
    requires
        ({
            let ab = displacement(b, a);
            let t = quotient(inner(displacement(p, a), ab), inner(ab, ab));
            &&& less(zero(), inner(ab, ab))
            &&& at_most(zero(), t)
            &&& at_most(t, one())
        }),
    ensures
        ({
            let ab = displacement(b, a);
            let t = quotient(inner(displacement(p, a), ab), inner(ab, ab));
            segment_distance(a, b, p) == gap(p, shifted(a, scaled(ab, t)))
        }),
{
}

/// A lane is as long as its legs together: nothing at its first waypoint, and one
/// leg more at each that follows; a lane of one leg is as long as that leg.
pub proof fn law_a_lane_is_as_long_as_its_legs(points: Seq<Vec2>, i: int)
    requires
        points.len() >= 2,
        0 <= i < points.len() - 1,
        gap(points[0], points[1]).finite(),
    ensures
        walked(points, 0).zero(),
        walked(points, i + 1) == sum(walked(points, i), gap(points[i], points[i + 1])),
        length(points) == walked(points, points.len() - 1),
        points.len() == 2 ==> length(points).position() == gap(points[0], points[1]).position(),
{
    lemma_zero_plus(zero(), gap(points[0], points[1]));
    assert(walked(points, 0) == zero());
    assert(walked(points, 1) == sum(walked(points, 0), gap(points[0], points[1])));
}

/// A creep is as far along its leg as it has walked of it: past waypoint `i` and not
/// yet at the next, the part of the leg behind it is the part it has walked.
pub proof fn law_a_creep_is_as_far_along_as_it_walked(points: Seq<Vec2>, dist: Scalar, i: int)
    requires
        points.len() >= 2,
        finite_points(points),
        length(points).finite(),
        dist.finite(),
        !dist.negative(),
        0 <= i < points.len() - 1,
        at_most(walked(points, i), dist),
        less(dist, walked(points, i + 1)),
        less(zero(), difference(walked(points, i + 1), walked(points, i))),
    ensures
        location(points, dist) == between(
            points[i],
            points[i + 1],
            quotient(
                difference(dist, walked(points, i)),
                difference(walked(points, i + 1), walked(points, i)),
            ),
        ),
{
    let n = points.len() as int;
    law_prefix_lengths_never_shrink(points, i + 1, n - 1);
    assert(clamped(dist, zero(), length(points)) == dist);
    lemma_reached(points, dist, n);
    let last = reached(points, dist, n);
    if last < i {
        assert(less(dist, walked(points, i)));
    }
    if last > i {
        law_prefix_lengths_never_shrink(points, i + 1, last);
    }
}

/// A board is what its map says: the same tiles, sizes and goal, and every lane
/// under its name with its own waypoints.
pub proof fn law_a_board_is_what_its_map_says(def: MapDefView, i: int)
    requires
        0 <= i < def.lanes.len(),
    ensures
        ({
            let b = board(def);
            &&& b.id == def.id
            &&& b.tiles_x == def.tiles_x
            &&& b.tiles_y == def.tiles_y
            &&& b.tile_size == def.tile_size
            &&& b.path_clearance == def.path_clearance
            &&& b.goal == def.goal
            &&& b.lanes.len() == def.lanes.len()
            &&& b.lanes[i].name == def.lanes[i].name
            &&& b.lanes[i].points == def.lanes[i].waypoints
        }),
{
}

/// A creep that has not come to its lane yet stands where the lane starts.
pub proof fn law_before_the_start_is_the_start(points: Seq<Vec2>, dist: Scalar)
    requires
        dist.finite(),
        less(dist, zero()),
        !length(points).nan(),
        at_most(zero(), length(points)),
    ensures
        location(points, dist) == location(points, zero()),
{
}

} // verus!
