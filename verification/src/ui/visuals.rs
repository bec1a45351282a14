//! Colours and sizes: what a board, a creep and a tower look like.
//!
//! Presentation only, so it is code rather than a balance table: a colour is the
//! cheapest way to tell the towers apart and to see a tier change at a glance.

use crate::data::components::{CreepHp, TowerVis};
use crate::map::{buildable, extents, MapData, MapView};
use crate::order::{at_most, clamped, larger, lemma_one, less, one, zero};
use crate::scalar::{
    from_whole, lemma_dividend_ordered, lemma_factors_swap, lemma_from_zero, lemma_product_grows, lemma_product_ordered,
    lemma_self_quotient, lemma_sum_not_below, lemma_sum_ordered, lemma_times_one, lemma_times_zero, lemma_wholes_ordered,
    lemma_zero_over, product, quotient, sum, Scalar,
};
use crate::vector::{IVec2, Vec2};
use vstd::prelude::*;

verus! {

/// A colour, each part between zero and one.
#[derive(Clone, Copy, PartialEq, Eq, Debug, Structural)]
pub struct Tint {
    pub red: Scalar,
    pub green: Scalar,
    pub blue: Scalar,
}

/// A creep before its health is known.
#[verifier::allow_in_spec]
pub fn creep_base() -> Tint
    returns
        (Tint { red: Scalar { bits: 0x3F4C_CCCD }, green: Scalar { bits: 0x3E80_0000 }, blue: Scalar { bits: 0x3E80_0000 } }),
{
    Tint { red: Scalar { bits: 0x3F4C_CCCD }, green: Scalar { bits: 0x3E80_0000 }, blue: Scalar { bits: 0x3E80_0000 } }
}

/// A single-target tower.
#[verifier::allow_in_spec]
pub fn yellow() -> Tint
    returns
        (Tint { red: Scalar { bits: 0x3F66_6666 }, green: Scalar { bits: 0x3F59_999A }, blue: Scalar { bits: 0x3E99_999A } }),
{
    Tint { red: Scalar { bits: 0x3F66_6666 }, green: Scalar { bits: 0x3F59_999A }, blue: Scalar { bits: 0x3E99_999A } }
}

/// A splash tower.
#[verifier::allow_in_spec]
pub fn orange() -> Tint
    returns
        (Tint { red: Scalar { bits: 0x3F59_999A }, green: Scalar { bits: 0x3EE6_6666 }, blue: Scalar { bits: 0x3E19_999A } }),
{
    Tint { red: Scalar { bits: 0x3F59_999A }, green: Scalar { bits: 0x3EE6_6666 }, blue: Scalar { bits: 0x3E19_999A } }
}

/// A slowing tower.
#[verifier::allow_in_spec]
pub fn blue() -> Tint
    returns
        (Tint { red: Scalar { bits: 0x3EB3_3333 }, green: Scalar { bits: 0x3F26_6666 }, blue: Scalar { bits: 0x3F73_3333 } }),
{
    Tint { red: Scalar { bits: 0x3EB3_3333 }, green: Scalar { bits: 0x3F26_6666 }, blue: Scalar { bits: 0x3F73_3333 } }
}

/// Ground a lane runs over.
#[verifier::allow_in_spec]
pub fn earth() -> Tint
    returns
        (Tint { red: Scalar { bits: 0x3E99_999A }, green: Scalar { bits: 0x3E75_C28F }, blue: Scalar { bits: 0x3E23_D70A } }),
{
    Tint { red: Scalar { bits: 0x3E99_999A }, green: Scalar { bits: 0x3E75_C28F }, blue: Scalar { bits: 0x3E23_D70A } }
}

/// Ground a tower may stand on.
#[verifier::allow_in_spec]
pub fn grass() -> Tint
    returns
        (Tint { red: Scalar { bits: 0x3E0F_5C29 }, green: Scalar { bits: 0x3ECC_CCCD }, blue: Scalar { bits: 0x3E2E_147B } }),
{
    Tint { red: Scalar { bits: 0x3E0F_5C29 }, green: Scalar { bits: 0x3ECC_CCCD }, blue: Scalar { bits: 0x3E2E_147B } }
}

/// A creep with no health left.
#[verifier::allow_in_spec]
pub fn darkest() -> Tint
    returns
        (Tint { red: Scalar { bits: 0x3E19_999A }, green: Scalar { bits: 0x3DF5_C28F }, blue: Scalar { bits: 0x3DF5_C28F } }),
{
    Tint { red: Scalar { bits: 0x3E19_999A }, green: Scalar { bits: 0x3DF5_C28F }, blue: Scalar { bits: 0x3DF5_C28F } }
}

/// What full health adds to a creep.
#[verifier::allow_in_spec]
pub fn bleed() -> Tint
    returns
        (Tint { red: Scalar { bits: 0x3F33_3333 }, green: Scalar { bits: 0x3E4C_CCCD }, blue: Scalar { bits: 0x3E4C_CCCD } }),
{
    Tint { red: Scalar { bits: 0x3F33_3333 }, green: Scalar { bits: 0x3E4C_CCCD }, blue: Scalar { bits: 0x3E4C_CCCD } }
}

/// The part of a tile that a tower of no level covers.
#[verifier::allow_in_spec]
pub fn smallest_tower() -> Scalar
    returns
        (Scalar { bits: 0x3F19_999A }),
{
    Scalar { bits: 0x3F19_999A }
}

/// The part of a tile that each level adds.
#[verifier::allow_in_spec]
pub fn tower_growth() -> Scalar
    returns
        (Scalar { bits: 0x3D8F_5C29 }),
{
    Scalar { bits: 0x3D8F_5C29 }
}

/// World units around the board that the camera shows.
#[verifier::allow_in_spec]
pub fn margin() -> Scalar
    returns
        (Scalar { bits: 0x42C0_0000 }),
{
    Scalar { bits: 0x42C0_0000 }
}

/// The colour of a tower kind. Kinds past the ones with a colour of their own
/// look like the first.
pub open spec fn kind_tint(kind: u8) -> Tint {
    if kind == 1 {
        orange()
    } else if kind == 2 {
        blue()
    } else {
        yellow()
    }
}

/// Tower kind to sprite colour.
pub fn tower_color(kind: u8) -> (tint: Tint)
    ensures
        tint == kind_tint(kind),
{
    match kind {
        1 => orange(),
        2 => blue(),
        _ => yellow(),
    }
}

/// How much of its health a creep has left, between nothing and all of it.
pub open spec fn health_left(hp: CreepHp) -> Scalar {
    clamped(quotient(hp.hp, larger(hp.max, one())), zero(), one())
}

/// The colour of a creep: it bleeds toward dark as the creep loses health.
pub open spec fn creep_tint(hp: CreepHp) -> Tint {
    let f = health_left(hp);
    Tint {
        red: sum(darkest().red, product(bleed().red, f)),
        green: sum(darkest().green, product(bleed().green, f)),
        blue: sum(darkest().blue, product(bleed().blue, f)),
    }
}

/// The colour of a creep.
pub fn creep_color(hp: &CreepHp) -> (tint: Tint)
    ensures
        tint == creep_tint(*hp),
{
    let f = hp.hp.over(hp.max.max(one())).clamp(zero(), one());
    Tint {
        red: darkest().red.plus(bleed().red.times(f)),
        green: darkest().green.plus(bleed().green.times(f)),
        blue: darkest().blue.plus(bleed().blue.times(f)),
    }
}

/// How large a tower is drawn: tiers grow the sprite, up to the sixth.
pub open spec fn tower_extent(tile: Scalar, level: u8) -> Scalar {
    let steps = if level > 6 { 6 } else { level as int };
    product(tile, sum(smallest_tower(), product(tower_growth(), from_whole(steps))))
}

/// How large a tower is drawn.
pub fn tower_size(tile: Scalar, vis: &TowerVis) -> (size: Scalar)
    ensures
        size == tower_extent(tile, vis.level),
{
    let steps: u32 = if vis.level > 6 { 6 } else { vis.level as u32 };
    tile.times(smallest_tower().plus(tower_growth().times(Scalar::from_u32(steps))))
}

/// The colour of a cell of the board: that of grass where a tower may stand.
pub open spec fn ground_tint(m: MapView, cell: IVec2) -> Tint {
    if buildable(m, cell) {
        grass()
    } else {
        earth()
    }
}

/// The colour of a cell of the board.
pub fn ground_color(map: &MapData, cell: IVec2) -> (tint: Tint)
    requires
        map.wf(),
    ensures
        tint == ground_tint(map@, cell),
{
    if map.is_buildable(cell) {
        grass()
    } else {
        earth()
    }
}

/// How much of the world a camera shows of a board with these half sides: all of it,
/// and a margin.
pub open spec fn seen_by_camera(half: Vec2) -> Vec2 {
    Vec2 { x: sum(sum(half.x, half.x), margin()), y: sum(sum(half.y, half.y), margin()) }
}

/// How much of the world a camera shows: the whole board, and a margin.
pub fn camera_size(map: &MapData) -> (size: Vec2)
    ensures
        size == seen_by_camera(extents(map.tiles_x, map.tiles_y, map.tile_size)),
{
    let half = map.half_extents();
    Vec2 { x: half.x.plus(half.x).plus(margin()), y: half.y.plus(half.y).plus(margin()) }
}

/// A sixth tier is as large as a tower gets.
pub proof fn law_towers_stop_growing(tile: Scalar, level: u8)
    requires
        level >= 6,
    ensures
        tower_extent(tile, level) == tower_extent(tile, 6),
{
}

/// A creep's colour tells its health: all of it at full health, none at no health
/// or below, and never less colour for more health.
pub proof fn law_a_creep_darkens_as_it_bleeds(hp: Scalar, more: Scalar, max: Scalar)
    requires
        max.finite(),
        at_most(one(), max),
        hp.finite(),
        more.finite(),
        at_most(hp, more),
    ensures
        ({
            let low = health_left(CreepHp { hp, max });
            let high = health_left(CreepHp { hp: more, max });
            &&& at_most(zero(), low)
            &&& at_most(low, high)
            &&& at_most(high, one())
            &&& hp == max ==> low == one()
            &&& at_most(hp, zero()) ==> low.zero()
            &&& at_most(creep_tint(CreepHp { hp, max }).red, creep_tint(CreepHp { hp: more, max }).red)
            &&& at_most(creep_tint(CreepHp { hp, max }).green, creep_tint(CreepHp { hp: more, max }).green)
            &&& at_most(creep_tint(CreepHp { hp, max }).blue, creep_tint(CreepHp { hp: more, max }).blue)
        }),
{
    lemma_one();
    let x = quotient(hp, max);
    let y = quotient(more, max);
    lemma_dividend_ordered(hp, more, max);
    lemma_self_quotient(max);
    if at_most(hp, zero()) {
        lemma_dividend_ordered(hp, zero(), max);
        lemma_zero_over(max);
    }
    let low = health_left(CreepHp { hp, max });
    let high = health_left(CreepHp { hp: more, max });
    lemma_brighter(darkest().red, bleed().red, low, high);
    lemma_brighter(darkest().green, bleed().green, low, high);
    lemma_brighter(darkest().blue, bleed().blue, low, high);
}

proof fn lemma_brighter(base: Scalar, part: Scalar, low: Scalar, high: Scalar)
    requires
        base.finite(),
        part.finite(),
        !part.negative(),
        part.rank() < one().rank(),
        at_most(zero(), low),
        at_most(low, high),
        at_most(high, one()),
    ensures
        at_most(sum(base, product(part, low)), sum(base, product(part, high))),
{
    lemma_one();
    lemma_product_ordered(low, high, part);
    lemma_product_ordered(high, one(), part);
    lemma_product_ordered(zero(), low, part);
    lemma_times_zero(zero(), part);
    lemma_factors_swap(low, part);
    lemma_factors_swap(high, part);
    lemma_factors_swap(one(), part);
    lemma_times_one(part);
    lemma_sum_ordered(base, product(part, low), product(part, high));
}

/// The three kinds with a colour of their own look different, and ground that may
/// be built on looks different from ground that may not.
pub proof fn law_kinds_look_different(a: u8, b: u8)
    requires
        a < b <= 2,
    ensures
        kind_tint(a) != kind_tint(b),
        grass() != earth(),
{
}

/// A tower of a higher level is drawn no smaller, up to the level it stops at.
pub proof fn law_towers_grow_with_their_level(tile: Scalar, level: u8)
    requires
        tile.finite(),
        less(zero(), tile),
        level < u8::MAX,
    ensures
        at_most(tower_extent(tile, level), tower_extent(tile, (level + 1) as u8)),
{
    let low = if level > 6 { 6 } else { level as int };
    let high = if level + 1 > 6 { 6 } else { level + 1 };
    lemma_one();
    lemma_wholes_ordered(low, high);
    lemma_wholes_ordered(0, low);
    lemma_product_ordered(from_whole(low), from_whole(high), tower_growth());
    lemma_product_ordered(from_whole(0), from_whole(low), tower_growth());
    lemma_from_zero();
    lemma_times_zero(from_whole(0), tower_growth());
    lemma_factors_swap(from_whole(low), tower_growth());
    lemma_factors_swap(from_whole(high), tower_growth());
    let x = product(tower_growth(), from_whole(low));
    let y = product(tower_growth(), from_whole(high));
    lemma_sum_not_below(smallest_tower(), x);
    lemma_sum_not_below(smallest_tower(), y);
    if x.finite() && y.finite() {
        lemma_sum_ordered(smallest_tower(), x, y);
    } else {
        reveal(sum);
    }
    lemma_product_grows(tile, sum(smallest_tower(), x), sum(smallest_tower(), y));
}

/// Ground looks built-on-able exactly where it is.
pub proof fn law_grass_may_be_built_on(m: MapView, cell: IVec2)
    ensures
        ground_tint(m, cell) == grass() <==> buildable(m, cell),
{
}

/// A camera shows the whole board: from its middle, as much to every side as the
/// board has, or more.
pub proof fn law_a_camera_shows_the_whole_board(half: Vec2)
    requires
        !half.x.nan() && !half.x.negative(),
        !half.y.nan() && !half.y.negative(),
    ensures
        at_most(sum(half.x, half.x), seen_by_camera(half).x),
        at_most(sum(half.y, half.y), seen_by_camera(half).y),
{
    lemma_sum_not_below(half.x, half.x);
    lemma_sum_not_below(half.y, half.y);
    lemma_sum_not_below(sum(half.x, half.x), margin());
    lemma_sum_not_below(sum(half.y, half.y), margin());
}

} // verus!
