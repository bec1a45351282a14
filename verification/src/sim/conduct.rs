//! What a fight does to each tower, each creep and each player's purse.

use crate::data::balance::curves::lemma_whole_growth;
use crate::data::balance::{tiers, BalanceView};
use crate::map::{cell_centre, length, location, MapView};
use crate::order::{at_most, lemma_one, less, one, zero};
use crate::scalar::{
    difference, from_whole, lemma_factors_swap, lemma_fraction_of, lemma_from_zero, lemma_over_one, lemma_plus_zero, lemma_product_grows, lemma_product_ordered,
    lemma_quotient_ordered, lemma_sum_not_below, lemma_sum_ordered, lemma_times_one, lemma_times_zero, lemma_value_orders, lemma_wholes_ordered,
    product, quotient, sum, Scalar,
};
use crate::sim::combat::{
    aim_of, aims, arrived, at_the_goal, before_fire, charged, cooled, damaged, dead, fallen, fought, in_reach, leaked, marched, readied, reap_has_room, reaped, shot_at, shot_of, still_walking, target, tier_factor, Aim, Shot,
};
use crate::sim::laws::{law_the_target_is_closest_to_the_goal, lemma_filter_holds, lemma_target_is_in_reach};
use crate::sim::economy::{credit_has_room, credited, credited_one};
use crate::sim::waves::{next_per_lane, spawned};
use crate::sim::{
    creep_position, good, lane_at, step_has_room, stepped, way_left, Creep, CreepId, Player, PlayerKey, SimView, Tower,
};
use crate::table::{holds, lemma_place, lemma_place_is, setting, unique};
use crate::vector::{gap, IVec2};
use vstd::prelude::*;

verus! {

// ---------------------------------------------------------------------------
// Towers
// ---------------------------------------------------------------------------

/// Charging goes by the aims it has come to.
proof fn lemma_charged_so_far(towers: Seq<(IVec2, Tower)>, aims: Seq<Aim>, next: Aim, n: int)
    requires
        0 <= n <= aims.len(),
    ensures
        charged(towers, aims.push(next), n) == charged(towers, aims, n),
    decreases n,
{
    if n > 0 {
        lemma_charged_so_far(towers, aims, next, n - 1);
    }
}

/// A tower that aimed is charged what its aim says; the others keep their
/// cooldowns.
proof fn lemma_charge(b: BalanceView, m: MapView, v: SimView, dt: Scalar, n: int)
    requires
        unique(v.towers),
        0 <= n <= v.towers.len(),
    ensures
        ({
            let all = aims(b, m, v, dt, n);
            let after = charged(cooled(v, dt).towers, all, all.len() as int);
            &&& after.len() == v.towers.len()
            &&& unique(after)
            &&& forall|i: int|
                0 <= i < v.towers.len() ==> {
                    let (cell, tower) = v.towers[i];
                    let aim = aim_of(b, m, v.creeps, cell, readied(tower, dt));
                    &&& (#[trigger] after[i]).0 == cell
                    &&& after[i].1 == (if i < n && aim is Some {
                        Tower { cooldown: aim->0.cooldown, ..readied(tower, dt) }
                    } else {
                        readied(tower, dt)
                    })
                }
        }),
    decreases n,
{
    let towers = cooled(v, dt).towers;
    let all = aims(b, m, v, dt, n);
    if n == 0 {
        assert forall|i: int, j: int| 0 <= i < j < towers.len() implies (#[trigger] towers[i]).0 != (#[trigger] towers[j]).0 by {
            assert(v.towers[i].0 != v.towers[j].0);
        }
    } else {
        lemma_charge(b, m, v, dt, n - 1);
        let before = aims(b, m, v, dt, n - 1);
        let (cell, tower) = v.towers[n - 1];
        if let Some(aim) = aim_of(b, m, v.creeps, cell, readied(tower, dt)) {
            lemma_charged_so_far(towers, before, aim, before.len() as int);
            let reached = charged(towers, before, before.len() as int);
            assert(all == before.push(aim));
            assert(reached[n - 1].0 == cell);
            lemma_place_is(reached, n - 1);
            let after = charged(towers, all, all.len() as int);
            assert(after == setting(reached, cell, Tower { cooldown: aim.cooldown, ..reached[n - 1].1 }));
            assert forall|i: int, j: int| 0 <= i < j < after.len() implies (#[trigger] after[i]).0 != (#[trigger] after[j]).0 by {
                assert(reached[i].0 != reached[j].0);
            }
        }
    }
}

/// A factor that grows with the level grows from one, and is one at the first
/// level.
proof fn lemma_tier_factor(per_level: Scalar, level: u8)
    requires
        per_level.finite(),
        at_most(zero(), per_level),
    ensures
        at_most(one(), tier_factor(per_level, level)),
        level < u8::MAX ==> at_most(tier_factor(per_level, level), tier_factor(per_level, (level + 1) as u8)),
        level <= 1 ==> tier_factor(per_level, level) == one(),
{
    lemma_one();
    lemma_from_zero();
    let next = if level < u8::MAX { (level + 1) as u8 } else { level };
    let low = from_whole(tiers(level));
    let high = from_whole(tiers(next));
    lemma_wholes_ordered(tiers(level), tiers(next));
    lemma_product_ordered(low, high, per_level);
    lemma_product_ordered(zero(), low, per_level);
    lemma_times_zero(zero(), per_level);
    lemma_factors_swap(low, per_level);
    lemma_factors_swap(high, per_level);
    let x = product(per_level, low);
    let y = product(per_level, high);
    lemma_sum_not_below(one(), x);
    lemma_sum_not_below(one(), y);
    if x.finite() && y.finite() {
        lemma_sum_ordered(one(), x, y);
    } else {
        reveal(sum);
    }
    if level <= 1 {
        lemma_times_zero(low, per_level);
        lemma_plus_zero(one(), x);
    }
}

/// A tower that stands ready with a creep in the table's range fires at some
/// creep, whatever its level.
proof fn lemma_fires(b: BalanceView, m: MapView, creeps: Seq<(CreepId, Creep)>, cell: IVec2, tower: Tower, j: int)
    requires
        tower.kind < b.towers.len(),
        !less(zero(), tower.cooldown),
        less(zero(), b.towers[tower.kind as int].range),
        b.towers[tower.kind as int].range_per_level.finite(),
        at_most(zero(), b.towers[tower.kind as int].range_per_level),
        0 <= j < creeps.len(),
        less(zero(), creeps[j].1.hp),
        at_most(gap(creep_position(m, creeps[j].1), cell_centre(m, cell)), b.towers[tower.kind as int].range),
    ensures
        aim_of(b, m, creeps, cell, tower) is Some,
{
    let stats = b.towers[tower.kind as int];
    lemma_tier_factor(stats.range_per_level, tower.level);
    let factor = tier_factor(stats.range_per_level, tower.level);
    let range = product(stats.range, factor);
    lemma_one();
    lemma_product_grows(stats.range, one(), factor);
    if stats.range.finite() {
        lemma_times_one(stats.range);
    } else {
        reveal(product);
    }
    assert(in_reach(m, creeps[j].1, cell_centre(m, cell), range));
    law_the_target_is_closest_to_the_goal(m, creeps, cell_centre(m, cell), range, creeps.len() as int, j);
}

/// An upgraded tower shoots no slower and hits no softer. On the tick a tower
/// fires, a higher level charges it no more cooldown and gives its shot no less
/// damage; the first level charges the table's cooldown and deals the table's
/// damage, and no level charges more or deals less.
pub proof fn law_an_upgrade_fires_faster_and_harder(b: BalanceView, m: MapView, v: SimView, dt: Scalar, i: int, j: int)
    requires
        good(v),
        0 <= i < v.towers.len(),
        v.towers[i].1.kind < b.towers.len(),
        v.towers[i].1.level < u8::MAX,
        !less(zero(), difference(v.towers[i].1.cooldown, dt)),
        ({
            let stats = b.towers[v.towers[i].1.kind as int];
            &&& stats.cooldown.finite() && less(zero(), stats.cooldown)
            &&& stats.damage_per_level.finite() && at_most(zero(), stats.damage_per_level)
            &&& less(zero(), stats.range)
            &&& stats.range_per_level.finite() && at_most(zero(), stats.range_per_level)
            &&& 0 <= j < v.creeps.len()
            &&& less(zero(), v.creeps[j].1.hp)
            &&& at_most(gap(creep_position(m, v.creeps[j].1), cell_centre(m, v.towers[i].0)), stats.range)
        }),
    ensures
        ({
            let (cell, tower) = v.towers[i];
            let stats = b.towers[tower.kind as int];
            let upgraded = Tower { level: (tower.level + 1) as u8, ..tower };
            let u = SimView { towers: v.towers.update(i, (cell, upgraded)), ..v };
            let now = fought(b, m, v, dt).towers[i].1.cooldown;
            let then = fought(b, m, u, dt).towers[i].1.cooldown;
            let aim = aim_of(b, m, v.creeps, cell, readied(tower, dt));
            let better = aim_of(b, m, v.creeps, cell, readied(upgraded, dt));
            &&& at_most(then, now)
            &&& at_most(now, stats.cooldown)
            &&& tower.level <= 1 ==> now == stats.cooldown
            &&& aim is Some && better is Some
            &&& less(zero(), stats.damage) ==> at_most(aim->0.damage, better->0.damage)
            &&& less(zero(), stats.damage) ==> at_most(stats.damage, aim->0.damage)
            &&& tower.level <= 1 && stats.damage.finite() ==> aim->0.damage == stats.damage
        }),
{
    let (cell, tower) = v.towers[i];
    let stats = b.towers[tower.kind as int];
    let upgraded = Tower { level: (tower.level + 1) as u8, ..tower };
    let u = SimView { towers: v.towers.update(i, (cell, upgraded)), ..v };
    assert(unique(u.towers)) by {
        assert forall|x: int, y: int| 0 <= x < y < u.towers.len() implies (#[trigger] u.towers[x]).0 != (#[trigger] u.towers[y]).0 by {
            assert(v.towers[x].0 != v.towers[y].0);
        }
    }
    lemma_charge(b, m, v, dt, v.towers.len() as int);
    lemma_charge(b, m, u, dt, u.towers.len() as int);
    lemma_fires(b, m, v.creeps, cell, readied(tower, dt), j);
    lemma_fires(b, m, v.creeps, cell, readied(upgraded, dt), j);
    let low = tier_factor(stats.damage_per_level, tower.level);
    let high = tier_factor(stats.damage_per_level, upgraded.level);
    lemma_tier_factor(stats.damage_per_level, tower.level);
    lemma_one();
    lemma_quotient_ordered(stats.cooldown, one(), low);
    lemma_quotient_ordered(stats.cooldown, low, high);
    lemma_over_one(stats.cooldown);
    if less(zero(), stats.damage) {
        lemma_product_grows(stats.damage, one(), low);
        lemma_product_grows(stats.damage, low, high);
    }
    if stats.damage.finite() {
        lemma_times_one(stats.damage);
    } else {
        reveal(product);
    }
    let w = fought(b, m, v, dt);
    let x = fought(b, m, u, dt);
    assert(w.towers[i].1.cooldown == quotient(stats.cooldown, low));
    assert(u.towers[i] == (cell, upgraded));
    assert(x.towers[i].1.cooldown == quotient(stats.cooldown, high));
}

/// Each level adds its step: a tower that gains a whole number of times its damage
/// with every level above the first hits that many times harder for each, and
/// shoots that many times as often; and it reaches that much farther for each
/// whole number of times its range it gains.
pub proof fn law_each_level_adds_its_step_of_fire(
    b: BalanceView,
    m: MapView,
    creeps: Seq<(CreepId, Creep)>,
    cell: IVec2,
    tower: Tower,
    step: int,
)
    requires
        tower.level >= 1,
        0 <= step <= 0x1_0000,
        aim_of(b, m, creeps, cell, tower) is Some,
    ensures
        ({
            let stats = b.towers[tower.kind as int];
            let aim = aim_of(b, m, creeps, cell, tower)->0;
            let times = from_whole(1 + step * (tower.level - 1));
            &&& stats.damage_per_level == from_whole(step) ==> {
                &&& aim.damage == product(stats.damage, times)
                &&& aim.cooldown == quotient(stats.cooldown, times)
            }
            &&& stats.range_per_level == from_whole(step) ==> at_most(
                gap(aim.center, cell_centre(m, cell)),
                product(stats.range, times),
            )
        }),
{
    lemma_one();
    let times = tower.level - 1;
    assert(0 <= step * times <= 0x1_0000 * 254) by (nonlinear_arith)
        requires
            0 <= step <= 0x1_0000,
            0 <= times <= 254,
    ;
    lemma_whole_growth(1, step, times);
    let stats = b.towers[tower.kind as int];
    let range = product(stats.range, tier_factor(stats.range_per_level, tower.level));
    lemma_target_is_in_reach(m, creeps, cell_centre(m, cell), range, creeps.len() as int);
}

/// A ready tower shoots whenever something that lives is in its range: the table's
/// range at the first level, and with each level above it that range once more for
/// each whole number of times the tower gains it.
pub proof fn law_a_ready_tower_shoots_what_it_reaches(
    b: BalanceView,
    m: MapView,
    creeps: Seq<(CreepId, Creep)>,
    cell: IVec2,
    tower: Tower,
    step: int,
    j: int,
)
    requires
        tower.kind < b.towers.len(),
        tower.level >= 1,
        !less(zero(), tower.cooldown),
        0 <= step <= 0x1_0000,
        b.towers[tower.kind as int].range_per_level == from_whole(step),
        0 <= j < creeps.len(),
        less(zero(), creeps[j].1.hp),
        at_most(
            gap(creep_position(m, creeps[j].1), cell_centre(m, cell)),
            product(b.towers[tower.kind as int].range, from_whole(1 + step * (tower.level - 1))),
        ),
    ensures
        aim_of(b, m, creeps, cell, tower) is Some,
{
    lemma_one();
    let times = tower.level - 1;
    assert(0 <= step * times <= 0x1_0000 * 254) by (nonlinear_arith)
        requires
            0 <= step <= 0x1_0000,
            0 <= times <= 254,
    ;
    lemma_whole_growth(1, step, times);
    let stats = b.towers[tower.kind as int];
    let range = product(stats.range, tier_factor(stats.range_per_level, tower.level));
    assert(in_reach(m, creeps[j].1, cell_centre(m, cell), range));
    law_the_target_is_closest_to_the_goal(m, creeps, cell_centre(m, cell), range, creeps.len() as int, j);
}

/// A higher level reaches no less far: where a tower finds a target, the same tower
/// a level up does too.
pub proof fn law_an_upgrade_reaches_as_far(
    b: BalanceView,
    m: MapView,
    creeps: Seq<(CreepId, Creep)>,
    cell: IVec2,
    tower: Tower,
)
    requires
        tower.level < u8::MAX,
        less(zero(), b.towers[tower.kind as int].range),
        b.towers[tower.kind as int].range_per_level.finite(),
        at_most(zero(), b.towers[tower.kind as int].range_per_level),
        aim_of(b, m, creeps, cell, tower) is Some,
    ensures
        aim_of(b, m, creeps, cell, Tower { level: (tower.level + 1) as u8, ..tower }) is Some,
{
    let stats = b.towers[tower.kind as int];
    let up = (tower.level + 1) as u8;
    lemma_one();
    lemma_tier_factor(stats.range_per_level, tower.level);
    let near = tier_factor(stats.range_per_level, tower.level);
    let far = tier_factor(stats.range_per_level, up);
    lemma_product_grows(stats.range, near, far);
    let origin = cell_centre(m, cell);
    let n = creeps.len() as int;
    lemma_target_is_in_reach(m, creeps, origin, product(stats.range, near), n);
    let j = target(m, creeps, origin, product(stats.range, near), n)->0;
    assert(in_reach(m, creeps[j].1, origin, product(stats.range, far)));
    law_the_target_is_closest_to_the_goal(m, creeps, origin, product(stats.range, far), n, j);
}

/// A tower waits out its cooldown, and then waits for a creep: while time is left
/// on it, or while nothing that lives is in range, it does not shoot and its
/// cooldown only runs down.
pub proof fn law_a_tower_holds_its_fire(b: BalanceView, m: MapView, v: SimView, dt: Scalar, i: int)
    requires
        good(v),
        0 <= i < v.towers.len(),
        v.towers[i].1.kind < b.towers.len(),
    ensures
        ({
            let (cell, tower) = v.towers[i];
            let stats = b.towers[tower.kind as int];
            let after = fought(b, m, v, dt).towers[i].1;
            let left = difference(tower.cooldown, dt);
            let nothing_near = forall|j: int|
                0 <= j < v.creeps.len() ==> at_most((#[trigger] v.creeps[j]).1.hp, zero()) || !at_most(
                    gap(creep_position(m, v.creeps[j].1), cell_centre(m, cell)),
                    stats.range,
                );
            let idle = less(zero(), left) || (nothing_near && tower.level <= 1 && stats.range.finite()
                && stats.range_per_level.finite() && at_most(zero(), stats.range_per_level));
            &&& idle ==> after.cooldown == left
            &&& idle ==> aim_of(b, m, v.creeps, cell, readied(tower, dt)) is None
        }),
{
    let (cell, tower) = v.towers[i];
    let stats = b.towers[tower.kind as int];
    lemma_charge(b, m, v, dt, v.towers.len() as int);
    assert(fought(b, m, v, dt).towers[i].0 == cell);
    lemma_one();
    if tower.level <= 1 && stats.range.finite() && stats.range_per_level.finite() && at_most(
        zero(),
        stats.range_per_level,
    ) {
        lemma_tier_factor(stats.range_per_level, tower.level);
        lemma_times_one(stats.range);
        lemma_target_is_in_reach(m, v.creeps, cell_centre(m, cell), stats.range, v.creeps.len() as int);
    }
}

/// A shot is aimed at a creep that lives and is in range, comes from whoever owns
/// the tower, and carries the table's splash and slow; it goes off where that
/// creep is.
pub proof fn law_a_shot_is_aimed_at_something_alive(
    b: BalanceView,
    m: MapView,
    creeps: Seq<(CreepId, Creep)>,
    cell: IVec2,
    tower: Tower,
)
    requires
        aim_of(b, m, creeps, cell, tower) is Some,
    ensures
        ({
            let aim = aim_of(b, m, creeps, cell, tower)->0;
            let stats = b.towers[tower.kind as int];
            &&& exists|j: int|
                0 <= j < creeps.len() && (#[trigger] creeps[j]).0 == aim.target && !at_most(creeps[j].1.hp, zero())
                    && aim.center == creep_position(m, creeps[j].1) && (tower.level <= 1 && stats.range.finite()
                    && stats.range_per_level.finite() && at_most(zero(), stats.range_per_level) ==> at_most(
                    gap(aim.center, cell_centre(m, cell)),
                    stats.range,
                ))
            &&& aim.cell == cell
            &&& aim.owner == tower.owner
            &&& aim.splash == stats.splash
            &&& aim.slow == stats.slow
            &&& aim.slow_duration == stats.slow_duration
        }),
{
    let stats = b.towers[tower.kind as int];
    let range = product(stats.range, tier_factor(stats.range_per_level, tower.level));
    lemma_one();
    if tower.level <= 1 && stats.range.finite() && stats.range_per_level.finite() && at_most(
        zero(),
        stats.range_per_level,
    ) {
        lemma_tier_factor(stats.range_per_level, tower.level);
        lemma_times_one(stats.range);
    }
    lemma_target_is_in_reach(m, creeps, cell_centre(m, cell), range, creeps.len() as int);
    let best = target(m, creeps, cell_centre(m, cell), range, creeps.len() as int)->0;
    assert(creeps[best].0 == aim_of(b, m, creeps, cell, tower)->0.target);
}

// ---------------------------------------------------------------------------
// Creeps
// ---------------------------------------------------------------------------

/// A shot lands on its target and, where it splashes, on everything within its
/// splash of the impact. What it lands on loses its damage and remembers whose
/// shot it was; what it misses, and what is dead already, it leaves as it is.
pub proof fn law_a_shot_hurts_what_it_hits(m: MapView, creeps: Seq<(CreepId, Creep)>, shot: Shot, k: int)
    requires
        0 <= k < creeps.len(),
    ensures
        shot_at(m, creeps, shot).len() == creeps.len(),
        shot_at(m, creeps, shot)[k].0 == creeps[k].0,
        ({
            let before = creeps[k].1;
            let after = shot_at(m, creeps, shot)[k].1;
            let aimed = creeps[k].0 == shot.target;
            let splashed = less(zero(), shot.splash) && at_most(gap(creep_position(m, before), shot.center), shot.splash);
            &&& less(zero(), before.hp) && (aimed || splashed) ==> {
                &&& after.hp == difference(before.hp, shot.damage)
                &&& after.last_hit_by == shot.owner
            }
            &&& at_most(before.hp, zero()) || (!aimed && !splashed) ==> after == before
            &&& after.lane == before.lane
            &&& after.dist == before.dist
            &&& after.max_hp == before.max_hp
            &&& after.base_speed == before.base_speed
            &&& after.bounty == before.bounty
        }),
{
}

/// Slows do not stack. A creep hit by a slowing shot walks at the slower of its
/// old slow and the shot's, for as long as the shot says; hit by the same shot
/// again it is slowed no further. A shot that does not slow leaves its slow alone.
pub proof fn law_slows_do_not_stack(m: MapView, creeps: Seq<(CreepId, Creep)>, shot: Shot, k: int)
    requires
        0 <= k < creeps.len(),
    ensures
        ({
            let before = creeps[k].1;
            let once = shot_at(m, creeps, shot);
            let after = once[k].1;
            let again = shot_at(m, once, shot)[k].1;
            let hit = less(zero(), before.hp) && (creeps[k].0 == shot.target || (less(zero(), shot.splash) && at_most(
                gap(creep_position(m, before), shot.center),
                shot.splash,
            )));
            &&& again.slow_mult == after.slow_mult
            &&& after.slow_mult == before.slow_mult || after.slow_mult == shot.slow
            &&& hit && less(shot.slow, one()) ==> {
                &&& at_most(after.slow_mult, shot.slow)
                &&& !before.slow_mult.nan() ==> at_most(after.slow_mult, before.slow_mult)
                &&& after.slow_timer == shot.slow_duration
            }
            &&& !hit || !less(shot.slow, one()) ==> {
                &&& before.hp.nan() || after.slow_mult == before.slow_mult
                &&& before.hp.nan() || after.slow_timer == before.slow_timer
            }
        }),
{
    let once = shot_at(m, creeps, shot);
    assert(shot_at(m, once, shot)[k].0 == once[k].0);
}

/// However many towers hit a creep in a tick, it ends up no slower than the
/// strongest slow among the tables and the one it had, and no faster than before.
pub proof fn law_no_slow_goes_past_the_strongest(b: BalanceView, m: MapView, v: SimView, dt: Scalar, k: int, least: Scalar)
    requires
        0 <= k < v.creeps.len(),
        at_most(least, v.creeps[k].1.slow_mult),
        forall|t: int| 0 <= t < b.towers.len() ==> at_most(least, (#[trigger] b.towers[t]).slow),
    ensures
        at_most(least, fought(b, m, v, dt).creeps[k].1.slow_mult),
        at_most(fought(b, m, v, dt).creeps[k].1.slow_mult, v.creeps[k].1.slow_mult),
{
    let all = aims(b, m, v, dt, v.towers.len() as int);
    let shots = all.map_values(|a: Aim| shot_of(a));
    lemma_aims_slow(b, m, v, dt, v.towers.len() as int, least);
    assert forall|i: int| 0 <= i < shots.len() implies at_most(least, (#[trigger] shots[i]).slow) by {
        assert(at_most(least, all[i].slow));
    }
    lemma_slowed(m, v.creeps, shots, shots.len() as int, k, least);
}

proof fn lemma_aims_slow(b: BalanceView, m: MapView, v: SimView, dt: Scalar, n: int, least: Scalar)
    requires
        0 <= n <= v.towers.len(),
        forall|t: int| 0 <= t < b.towers.len() ==> at_most(least, (#[trigger] b.towers[t]).slow),
    ensures
        forall|i: int| 0 <= i < aims(b, m, v, dt, n).len() ==> at_most(least, (#[trigger] aims(b, m, v, dt, n)[i]).slow),
    decreases n,
{
    if n > 0 {
        lemma_aims_slow(b, m, v, dt, n - 1, least);
        let (cell, tower) = v.towers[n - 1];
        let before = aims(b, m, v, dt, n - 1);
        let all = aims(b, m, v, dt, n);
        assert forall|i: int| 0 <= i < all.len() implies at_most(least, (#[trigger] all[i]).slow) by {
            if i < before.len() {
                assert(all[i] == before[i]);
            } else {
                assert(at_most(least, b.towers[tower.kind as int].slow));
            }
        }
    }
}

proof fn lemma_slowed(m: MapView, creeps: Seq<(CreepId, Creep)>, shots: Seq<Shot>, n: int, k: int, least: Scalar)
    requires
        0 <= n <= shots.len(),
        0 <= k < creeps.len(),
        at_most(least, creeps[k].1.slow_mult),
        forall|i: int| 0 <= i < shots.len() ==> at_most(least, (#[trigger] shots[i]).slow),
    ensures
        damaged(m, creeps, shots, n).len() == creeps.len(),
        at_most(least, damaged(m, creeps, shots, n)[k].1.slow_mult),
        at_most(damaged(m, creeps, shots, n)[k].1.slow_mult, creeps[k].1.slow_mult),
    decreases n,
{
    if n > 0 {
        lemma_slowed(m, creeps, shots, n - 1, k, least);
        assert(at_most(least, shots[n - 1].slow));
    }
}

/// The aims of the towers before one do not depend on it.
proof fn lemma_aims_before(b: BalanceView, m: MapView, v: SimView, w: SimView, dt: Scalar, n: int)
    requires
        0 <= n <= v.towers.len(),
        n <= w.towers.len(),
        v.creeps == w.creeps,
        forall|i: int| 0 <= i < n ==> v.towers[i] == w.towers[i],
    ensures
        aims(b, m, v, dt, n) == aims(b, m, w, dt, n),
    decreases n,
{
    if n > 0 {
        lemma_aims_before(b, m, v, w, dt, n - 1);
        assert(v.towers[n - 1] == w.towers[n - 1]);
    }
}

proof fn lemma_damage_so_far(m: MapView, creeps: Seq<(CreepId, Creep)>, a: Seq<Shot>, b: Seq<Shot>, n: int)
    requires
        0 <= n <= a.len(),
        n <= b.len(),
        forall|i: int| 0 <= i < n ==> a[i] == b[i],
    ensures
        damaged(m, creeps, a, n) == damaged(m, creeps, b, n),
    decreases n,
{
    if n > 0 {
        lemma_damage_so_far(m, creeps, a, b, n - 1);
    }
}

/// Every tower's shot lands, one after another: with one more tower on the board, a
/// tick does all it did without it and then lands that tower's shot, with the
/// numbers of its aim, on the creeps as the others left them; where that tower does
/// not aim, it does nothing more.
pub proof fn law_every_shot_lands_in_its_turn(
    b: BalanceView,
    m: MapView,
    v: SimView,
    dt: Scalar,
    cell: IVec2,
    tower: Tower,
)
    ensures
        ({
            let w = SimView { towers: v.towers.push((cell, tower)), ..v };
            let before = fought(b, m, v, dt).creeps;
            let after = fought(b, m, w, dt).creeps;
            match aim_of(b, m, v.creeps, cell, readied(tower, dt)) {
                None => after == before,
                Some(aim) => after == shot_at(
                    m,
                    before,
                    Shot {
                        target: aim.target,
                        center: aim.center,
                        damage: aim.damage,
                        splash: aim.splash,
                        slow: aim.slow,
                        slow_duration: aim.slow_duration,
                        owner: tower.owner,
                    },
                ),
            }
        }),
{
    let w = SimView { towers: v.towers.push((cell, tower)), ..v };
    let n = v.towers.len() as int;
    lemma_aims_before(b, m, v, w, dt, n);
    let first = aims(b, m, v, dt, n);
    let all = aims(b, m, w, dt, n + 1);
    assert(w.towers[n] == (cell, tower));
    let few = first.map_values(|a: Aim| shot_of(a));
    let many = all.map_values(|a: Aim| shot_of(a));
    match aim_of(b, m, v.creeps, cell, readied(tower, dt)) {
        None => {
            assert(all == first);
        },
        Some(aim) => {
            assert(all == first.push(aim));
            assert forall|i: int| 0 <= i < few.len() implies few[i] == many[i] by {
                assert(all[i] == first[i]);
            }
            lemma_damage_so_far(m, v.creeps, few, many, few.len() as int);
            assert(many[few.len() as int] == shot_of(aim));
        },
    }
}

/// A tower that stands alone does to the creeps what its one shot does: its
/// target loses the damage its aim says and is credited to its owner, and a creep
/// out of its splash is left as it was. Where it does not aim, no creep is hurt.
pub proof fn law_a_lone_tower_hits_what_it_aims_at(b: BalanceView, m: MapView, v: SimView, dt: Scalar, k: int)
    requires
        v.towers.len() == 1,
        0 <= k < v.creeps.len(),
    ensures
        ({
            let (cell, tower) = v.towers[0];
            let before = v.creeps[k].1;
            let after = fought(b, m, v, dt).creeps[k].1;
            match aim_of(b, m, v.creeps, cell, readied(tower, dt)) {
                None => after == before,
                Some(aim) => {
                    &&& v.creeps[k].0 == aim.target && less(zero(), before.hp) ==> {
                        &&& after.hp == difference(before.hp, aim.damage)
                        &&& after.last_hit_by == tower.owner
                    }
                    &&& v.creeps[k].0 != aim.target && !at_most(
                        gap(creep_position(m, before), aim.center),
                        b.towers[tower.kind as int].splash,
                    ) ==> after == before
                },
            }
        }),
{
    let (cell, tower) = v.towers[0];
    let all = aims(b, m, v, dt, 1);
    let shots = all.map_values(|a: Aim| shot_of(a));
    reveal_with_fuel(aims, 2);
    reveal_with_fuel(damaged, 2);
    assert(v.towers[0].1 == tower);
    match aim_of(b, m, v.creeps, cell, readied(tower, dt)) {
        None => {
            assert(all.len() == 0);
        },
        Some(aim) => {
            assert(all.len() == 1 && all[0] == aim);
            assert(shots[0] == shot_of(aim));
        },
    }
}

/// A creep walks its own speed for the time that passed, times its slow for as
/// long as that lasts: a slow that runs out this tick holds it back no more. The
/// slow runs down by the same time, and walking changes nothing else.
pub proof fn law_a_creep_walks_at_its_pace(v: SimView, dt: Scalar, k: int)
    requires
        0 <= k < v.creeps.len(),
        v.creeps[k].1.base_speed.finite(),
    ensures
        marched(v, dt).creeps.len() == v.creeps.len(),
        ({
            let before = v.creeps[k].1;
            let after = marched(v, dt).creeps[k].1;
            let slowed = less(zero(), before.slow_timer);
            let left = difference(before.slow_timer, dt);
            &&& slowed ==> after.slow_timer == left
            &&& !slowed ==> after.slow_timer == before.slow_timer
            &&& slowed && less(zero(), left) ==> after.dist == sum(
                before.dist,
                product(product(before.base_speed, before.slow_mult), dt),
            )
            &&& !slowed || !less(zero(), left) ==> after.dist == sum(before.dist, product(before.base_speed, dt))
            &&& after == (Creep { dist: after.dist, slow_timer: after.slow_timer, ..before })
            &&& marched(v, dt).creeps[k].0 == v.creeps[k].0
        }),
{
    lemma_one();
    lemma_times_one(v.creeps[k].1.base_speed);
}

/// A slowed creep gets no further than the same creep unhindered, and neither
/// walks backwards.
pub proof fn law_a_slow_holds_a_creep_back(v: SimView, dt: Scalar, k: int)
    requires
        0 <= k < v.creeps.len(),
        ({
            let c = v.creeps[k].1;
            &&& c.dist.finite()
            &&& c.base_speed.finite() && at_most(zero(), c.base_speed) && !c.base_speed.negative()
            &&& c.slow_mult.finite() && less(zero(), c.slow_mult) && at_most(c.slow_mult, one())
            &&& dt.finite() && at_most(zero(), dt)
            &&& product(c.base_speed, dt).finite()
        }),
    ensures
        ({
            let (id, c) = v.creeps[k];
            let free = SimView { creeps: v.creeps.update(k, (id, Creep { slow_timer: zero(), ..c })), ..v };
            &&& at_most(c.dist, marched(v, dt).creeps[k].1.dist)
            &&& at_most(marched(v, dt).creeps[k].1.dist, marched(free, dt).creeps[k].1.dist)
        }),
{
    let (id, c) = v.creeps[k];
    let free = SimView { creeps: v.creeps.update(k, (id, Creep { slow_timer: zero(), ..c })), ..v };
    law_a_creep_walks_at_its_pace(v, dt, k);
    law_a_creep_walks_at_its_pace(free, dt, k);
    assert(free.creeps[k].1 == Creep { slow_timer: zero(), ..c });
    lemma_one();
    lemma_value_orders(c.slow_mult, one());
    let slow = product(c.base_speed, c.slow_mult);
    lemma_fraction_of(c.base_speed, c.slow_mult);
    lemma_value_orders(slow, c.base_speed);
    lemma_value_orders(zero(), slow);
    assert(crate::scalar::magnitude(0) == 0);
    lemma_product_ordered(slow, c.base_speed, dt);
    lemma_product_ordered(zero(), slow, dt);
    lemma_product_ordered(zero(), c.base_speed, dt);
    lemma_times_zero(zero(), dt);
    let near = product(slow, dt);
    let far = product(c.base_speed, dt);
    lemma_sum_ordered(c.dist, near, far);
    lemma_sum_ordered(c.dist, zero(), near);
    lemma_sum_ordered(c.dist, zero(), far);
    lemma_sum_ordered(c.dist, far, far);
    lemma_plus_zero(c.dist, zero());
}

/// A creep that nothing shoots at walks on: on a board without towers, a tick
/// leaves every creep that entered by then, and was not slowed, farther along its
/// lane by its speed and otherwise as it was, unless that took it to the end.
pub proof fn law_an_unhindered_creep_walks_on(b: BalanceView, m: MapView, v: SimView, dt: Scalar, k: int)
    requires
        !v.over,
        v.towers.len() == 0,
        0 <= k < spawned(b, m, v, dt).creeps.len(),
        ({
            let c = spawned(b, m, v, dt).creeps[k].1;
            &&& c.base_speed.finite()
            &&& !less(zero(), c.slow_timer)
            &&& less(zero(), c.hp)
            &&& !at_most(length(lane_at(m, c.lane).points), sum(c.dist, product(c.base_speed, dt)))
        }),
    ensures
        ({
            let (id, c) = spawned(b, m, v, dt).creeps[k];
            stepped(b, m, v, dt).creeps.contains((id, Creep { dist: sum(c.dist, product(c.base_speed, dt)), ..c }))
        }),
{
    let s = spawned(b, m, v, dt);
    let (id, c) = s.creeps[k];
    law_a_creep_walks_at_its_pace(s, dt, k);
    let moving = marched(s, dt).creeps;
    let there = (id, Creep { dist: sum(c.dist, product(c.base_speed, dt)), ..c });
    assert(moving[k] == there);
    let w = before_fire(b, m, s, dt);
    moving.lemma_filter_contains(|e: (CreepId, Creep)| !arrived(m, e.1), k);
    assert(w.creeps.contains(there));
    let f = fought(b, m, w, dt);
    assert(aims(b, m, w, dt, 0) =~= Seq::empty());
    assert(f.creeps =~= w.creeps);
    let p = choose|p: int| 0 <= p < w.creeps.len() && w.creeps[p] == there;
    assert(f.creeps[p] == there);
    f.creeps.lemma_filter_contains(|e: (CreepId, Creep)| !dead(e.1), p);
}

/// A creep that has walked its lane to the end leaves the board, and one that has
/// not stays: which it is goes by its own lane.
pub proof fn law_a_creep_leaks_at_the_end_of_its_lane(b: BalanceView, m: MapView, v: SimView, k: int)
    requires
        unique(v.creeps),
        0 <= k < v.creeps.len(),
        v.creeps[k].1.lane < m.lanes.len(),
    ensures
        ({
            let c = v.creeps[k].1;
            let end = length(m.lanes[c.lane as int].points);
            leaked(b, m, v).creeps.contains(v.creeps[k]) == !at_most(end, c.dist)
        }),
        leaked(b, m, v).leaks + leaked(b, m, v).creeps.len() == v.leaks + v.creeps.len(),
{
    let stay = |e: (CreepId, Creep)| !arrived(m, e.1);
    let rest = v.creeps.filter(stay);
    if stay(v.creeps[k]) {
        v.creeps.lemma_filter_contains(stay, k);
    } else if rest.contains(v.creeps[k]) {
        let q = choose|q: int| 0 <= q < rest.len() && rest[q] == v.creeps[k];
        lemma_filter_holds(v.creeps, stay, q);
    }
    lemma_stay_or_go(m, v.creeps);
}

proof fn lemma_stay_or_go(m: MapView, creeps: Seq<(CreepId, Creep)>)
    ensures
        still_walking(m, creeps).len() + at_the_goal(m, creeps).len() == creeps.len(),
    decreases creeps.len(),
{
    reveal(Seq::filter);
    if creeps.len() > 0 {
        lemma_stay_or_go(m, creeps.drop_last());
    }
}

/// A creep stands on the lane it entered on, as far along it as it has walked, and
/// has as far to go as is left of that lane.
pub proof fn law_a_creep_stands_where_it_has_walked_to(m: MapView, creep: Creep)
    requires
        creep.lane < m.lanes.len(),
    ensures
        ({
            let points = m.lanes[creep.lane as int].points;
            &&& creep_position(m, creep) == location(points, creep.dist)
            &&& way_left(m, creep) == difference(length(points), creep.dist)
        }),
{
}

// ---------------------------------------------------------------------------
// Purses
// ---------------------------------------------------------------------------

/// A kill pays the player whose key is on it, wherever their record stands in the
/// table: the bounty, and one kill. Everyone else's record, and that of a killer
/// who has left, stays as it is.
pub proof fn law_a_kill_pays_wherever_the_record_stands(players: Seq<(PlayerKey, Player)>, creep: Creep, i: int)
    requires
        unique(players),
        0 <= i < players.len(),
        players[i].0 == creep.last_hit_by && players[i].1.connected ==> players[i].1.gold + creep.bounty <= u32::MAX
            && players[i].1.kills < u32::MAX,
    ensures
        credited_one(players, creep).len() == players.len(),
        ({
            let before = players[i].1;
            let after = credited_one(players, creep)[i];
            &&& after.0 == players[i].0
            &&& after.1.connected == before.connected
            &&& after.1.wave_call_cooldown == before.wave_call_cooldown
            &&& players[i].0 == creep.last_hit_by && before.connected ==> {
                &&& after.1.gold == before.gold + creep.bounty
                &&& after.1.kills == before.kills + 1
            }
            &&& players[i].0 != creep.last_hit_by || !before.connected ==> after.1 == before
        }),
{
    lemma_place_is(players, i);
    lemma_place(players, creep.last_hit_by);
}

/// The bounties of the creeps, among the first `n`, that are out of health and
/// were last hit by this player.
pub open spec fn bounties(creeps: Seq<(CreepId, Creep)>, key: PlayerKey, n: int) -> int
    decreases n,
{
    if n <= 0 {
        0
    } else {
        bounties(creeps, key, n - 1) + (if at_most(creeps[n - 1].1.hp, zero()) && creeps[n - 1].1.last_hit_by == key {
            creeps[n - 1].1.bounty as int
        } else {
            0
        })
    }
}

/// How many creeps, among the first `n`, are out of health and were last hit by
/// this player.
pub open spec fn victims(creeps: Seq<(CreepId, Creep)>, key: PlayerKey, n: int) -> int
    decreases n,
{
    if n <= 0 {
        0
    } else {
        victims(creeps, key, n - 1) + (if at_most(creeps[n - 1].1.hp, zero()) && creeps[n - 1].1.last_hit_by == key {
            1int
        } else {
            0
        })
    }
}

/// When the dead are reaped, every connected player is paid the bounties of all
/// the creeps they hit last, and credited as many kills; whoever has left is paid
/// nothing. The dead are gone, and the living stay.
pub proof fn law_the_dead_are_paid_for(v: SimView, i: int)
    requires
        good(v),
        reap_has_room(v),
        0 <= i < v.players.len(),
    ensures
        ({
            let w = reaped(v);
            let n = v.creeps.len() as int;
            let (key, before) = v.players[i];
            &&& w.players.len() == v.players.len()
            &&& w.players[i].0 == key
            &&& before.connected ==> w.players[i].1.gold == before.gold + bounties(v.creeps, key, n)
            &&& before.connected ==> w.players[i].1.kills == before.kills + victims(v.creeps, key, n)
            &&& !before.connected ==> w.players[i].1 == before
            &&& forall|j: int|
                0 <= j < n ==> w.creeps.contains(#[trigger] v.creeps[j]) == !at_most(v.creeps[j].1.hp, zero())
        }),
{
    let gone = fallen(v.creeps);
    lemma_credit(v.players, gone, gone.len() as int, i);
    let falls = |e: (CreepId, Creep)| dead(e.1);
    let lives = |e: (CreepId, Creep)| !dead(e.1);
    lemma_fallen_bounties(v.creeps, v.players[i].0);
    lemma_all_fallen(gone, v.creeps, v.players[i].0, gone.len() as int);
    let w = reaped(v);
    assert forall|j: int| 0 <= j < v.creeps.len() implies w.creeps.contains(#[trigger] v.creeps[j]) == !at_most(
        v.creeps[j].1.hp,
        zero(),
    ) by {
        if lives(v.creeps[j]) {
            v.creeps.lemma_filter_contains(lives, j);
        } else if w.creeps.contains(v.creeps[j]) {
            let p = choose|p: int| 0 <= p < w.creeps.len() && w.creeps[p] == v.creeps[j];
            lemma_filter_holds(v.creeps, lives, p);
        }
    }
}

/// The bounties among creeps that are all dead, counted one by one.
spec fn dues(gone: Seq<(CreepId, Creep)>, key: PlayerKey, n: int) -> (int, int)
    decreases n,
{
    if n <= 0 {
        (0, 0)
    } else {
        let (gold, kills) = dues(gone, key, n - 1);
        if gone[n - 1].1.last_hit_by == key {
            (gold + gone[n - 1].1.bounty, kills + 1)
        } else {
            (gold, kills)
        }
    }
}

proof fn lemma_credit(players: Seq<(PlayerKey, Player)>, gone: Seq<(CreepId, Creep)>, n: int, i: int)
    requires
        unique(players),
        0 <= i < players.len(),
        0 <= n <= gone.len(),
        credit_has_room(players, gone, n),
    ensures
        ({
            let after = credited(players, gone, n);
            let (gold, kills) = dues(gone, players[i].0, n);
            &&& after.len() == players.len()
            &&& unique(after)
            &&& forall|j: int| 0 <= j < players.len() ==> (#[trigger] after[j]).0 == players[j].0
            &&& players[i].1.connected ==> after[i].1 == (Player {
                gold: (players[i].1.gold + gold) as u32,
                kills: (players[i].1.kills + kills) as u32,
                ..players[i].1
            })
            &&& players[i].1.connected ==> 0 <= players[i].1.gold + gold <= u32::MAX
            &&& players[i].1.connected ==> 0 <= players[i].1.kills + kills <= u32::MAX
            &&& !players[i].1.connected ==> after[i].1 == players[i].1
        }),
    decreases n,
{
    if n > 0 {
        lemma_credit(players, gone, n - 1, i);
        let before = credited(players, gone, n - 1);
        let creep = gone[n - 1].1;
        lemma_place_is(before, i);
        lemma_place(before, creep.last_hit_by);
        law_a_kill_pays_wherever_the_record_stands(before, creep, i);
        let after = credited(players, gone, n);
        assert forall|j: int| 0 <= j < players.len() implies (#[trigger] after[j]).0 == players[j].0 by {
            assert(before[j].0 == players[j].0);
        }
        assert forall|x: int, y: int| 0 <= x < y < after.len() implies (#[trigger] after[x]).0 != (#[trigger] after[y]).0 by {
            assert(players[x].0 != players[y].0);
        }
    }
}

proof fn lemma_fallen_bounties(creeps: Seq<(CreepId, Creep)>, key: PlayerKey)
    ensures
        bounties(fallen(creeps), key, fallen(creeps).len() as int) == bounties(creeps, key, creeps.len() as int),
        victims(fallen(creeps), key, fallen(creeps).len() as int) == victims(creeps, key, creeps.len() as int),
    decreases creeps.len(),
{
    reveal(Seq::filter);
    if creeps.len() > 0 {
        let front = creeps.drop_last();
        lemma_fallen_bounties(front, key);
        lemma_same_bounties(creeps, front, key, front.len() as int);
        if dead(creeps.last().1) {
            let all = fallen(creeps);
            lemma_same_bounties(all, fallen(front), key, fallen(front).len() as int);
        }
    }
}

proof fn lemma_same_bounties(a: Seq<(CreepId, Creep)>, b: Seq<(CreepId, Creep)>, key: PlayerKey, n: int)
    requires
        0 <= n <= a.len(),
        n <= b.len(),
        forall|i: int| 0 <= i < n ==> a[i] == b[i],
    ensures
        bounties(a, key, n) == bounties(b, key, n),
        victims(a, key, n) == victims(b, key, n),
    decreases n,
{
    if n > 0 {
        lemma_same_bounties(a, b, key, n - 1);
    }
}

proof fn lemma_all_fallen(gone: Seq<(CreepId, Creep)>, creeps: Seq<(CreepId, Creep)>, key: PlayerKey, n: int)
    requires
        gone == fallen(creeps),
        0 <= n <= gone.len(),
    ensures
        dues(gone, key, n) == (bounties(gone, key, n), victims(gone, key, n)),
    decreases n,
{
    if n > 0 {
        lemma_all_fallen(gone, creeps, key, n - 1);
        lemma_filter_holds(creeps, |e: (CreepId, Creep)| dead(e.1), n - 1);
    }
}

/// The purses have room for a tick's dead exactly when every connected player's gold
/// and kills have room for all they are owed.
pub proof fn law_purses_have_room_for_what_they_are_owed(v: SimView)
    requires
        good(v),
    ensures
        reap_has_room(v) <==> (forall|i: int|
            0 <= i < v.players.len() && (#[trigger] v.players[i]).1.connected ==> {
                &&& v.players[i].1.gold + bounties(v.creeps, v.players[i].0, v.creeps.len() as int) <= u32::MAX
                &&& v.players[i].1.kills + victims(v.creeps, v.players[i].0, v.creeps.len() as int) <= u32::MAX
            }),
{
    let gone = fallen(v.creeps);
    let n = gone.len() as int;
    assert forall|i: int| 0 <= i < v.players.len() implies dues(gone, #[trigger] v.players[i].0, n) == (
        bounties(v.creeps, v.players[i].0, v.creeps.len() as int),
        victims(v.creeps, v.players[i].0, v.creeps.len() as int),
    ) by {
        lemma_fallen_bounties(v.creeps, v.players[i].0);
        lemma_all_fallen(gone, v.creeps, v.players[i].0, n);
    }
    if reap_has_room(v) {
        assert forall|i: int| 0 <= i < v.players.len() && (#[trigger] v.players[i]).1.connected implies v.players[i].1.gold
            + bounties(v.creeps, v.players[i].0, v.creeps.len() as int) <= u32::MAX && v.players[i].1.kills + victims(
            v.creeps,
            v.players[i].0,
            v.creeps.len() as int,
        ) <= u32::MAX by {
            lemma_credit(v.players, gone, n, i);
            assert(dues(gone, v.players[i].0, n) == dues(gone, v.players[i].0, n));
        }
    }
    if forall|i: int|
        0 <= i < v.players.len() && (#[trigger] v.players[i]).1.connected ==> {
            &&& v.players[i].1.gold + bounties(v.creeps, v.players[i].0, v.creeps.len() as int) <= u32::MAX
            &&& v.players[i].1.kills + victims(v.creeps, v.players[i].0, v.creeps.len() as int) <= u32::MAX
        } {
        assert forall|i: int| 0 <= i < v.players.len() && (#[trigger] v.players[i]).1.connected implies v.players[i].1.gold
            + dues(gone, v.players[i].0, n).0 <= u32::MAX && v.players[i].1.kills + dues(gone, v.players[i].0, n).1
            <= u32::MAX by {}
        lemma_dues_fit(v.players, gone, n);
    }
}

proof fn lemma_dues_grow(gone: Seq<(CreepId, Creep)>, key: PlayerKey, n: int, end: int)
    requires
        0 <= n <= end <= gone.len(),
    ensures
        0 <= dues(gone, key, n).0 <= dues(gone, key, end).0,
        0 <= dues(gone, key, n).1 <= dues(gone, key, end).1,
    decreases end,
{
    if n < end {
        lemma_dues_grow(gone, key, n, end - 1);
    } else if n > 0 {
        lemma_dues_grow(gone, key, n - 1, n - 1);
    }
}

proof fn lemma_dues_fit(players: Seq<(PlayerKey, Player)>, gone: Seq<(CreepId, Creep)>, n: int)
    requires
        unique(players),
        0 <= n <= gone.len(),
        forall|i: int|
            0 <= i < players.len() && (#[trigger] players[i]).1.connected ==> players[i].1.gold + dues(
                gone,
                players[i].0,
                n,
            ).0 <= u32::MAX && players[i].1.kills + dues(gone, players[i].0, n).1 <= u32::MAX,
    ensures
        credit_has_room(players, gone, n),
    decreases n,
{
    if n > 0 {
        assert forall|i: int| 0 <= i < players.len() && (#[trigger] players[i]).1.connected implies players[i].1.gold + dues(
            gone,
            players[i].0,
            n - 1,
        ).0 <= u32::MAX && players[i].1.kills + dues(gone, players[i].0, n - 1).1 <= u32::MAX by {
            lemma_dues_grow(gone, players[i].0, n - 1, n);
        }
        lemma_dues_fit(players, gone, n - 1);
        let before = credited(players, gone, n - 1);
        let creep = gone[n - 1].1;
        lemma_place(before, creep.last_hit_by);
        if holds(before, creep.last_hit_by) {
            let p = crate::table::place_of(before, creep.last_hit_by);
            if players.len() > 0 {
                lemma_credit(players, gone, n - 1, 0);
            }
            lemma_same_people(players, gone, n - 1);
            lemma_credit(players, gone, n - 1, p);
            if players[p].1.connected {
                assert(players[p].1.gold + dues(gone, players[p].0, n).0 <= u32::MAX);
            }
        }
    }
}

proof fn lemma_same_people(players: Seq<(PlayerKey, Player)>, gone: Seq<(CreepId, Creep)>, n: int)
    ensures
        credited(players, gone, n).len() == players.len(),
    decreases n,
{
    if n > 0 {
        lemma_same_people(players, gone, n - 1);
        lemma_place(credited(players, gone, n - 1), gone[n - 1].1.last_hit_by);
    }
}

/// A tick goes through exactly when its counters have room: for the wave it starts,
/// if it starts one, for the creeps that leak, and for what the dead pay. A match
/// that is over has room for any number of ticks.
pub proof fn law_a_tick_goes_through_while_there_is_room(b: BalanceView, m: MapView, v: SimView, dt: Scalar)
    ensures
        v.over ==> step_has_room(b, m, v, dt),
        !v.over ==> (step_has_room(b, m, v, dt) <==> {
            let s = spawned(b, m, v, dt);
            let moving = marched(s, dt);
            let walking = leaked(b, m, moving);
            let starts = !less(zero(), difference(v.wave_timer, dt));
            &&& starts ==> v.wave < u32::MAX && next_per_lane(b, v) <= u32::MAX && v.next_id + next_per_lane(b, v)
                * m.lanes.len() <= u32::MAX
            &&& v.leaks + (moving.creeps.len() - walking.creeps.len()) <= u32::MAX
            &&& reap_has_room(fought(b, m, walking, dt))
        }),
{
    let s = spawned(b, m, v, dt);
    lemma_stay_or_go(m, marched(s, dt).creeps);
}

/// A tick runs every clock by its own time. The wave clock runs down, or starts over
/// with the wave it ran out for; every player's wait for another call runs down,
/// and no further than to nothing.
pub proof fn law_a_tick_runs_every_clock(b: BalanceView, m: MapView, v: SimView, dt: Scalar, i: int)
    requires
        !v.over,
        0 <= v.wave < u32::MAX,
        0 <= i < v.players.len(),
    ensures
        ({
            let w = stepped(b, m, v, dt);
            let left = difference(v.wave_timer, dt);
            let wait = difference(v.players[i].1.wave_call_cooldown, dt);
            &&& less(zero(), left) ==> w.wave == v.wave && w.wave_timer == left
            &&& !less(zero(), left) ==> w.wave == v.wave + 1 && w.wave_timer == b.match_rules.wave_interval
            &&& w.players.len() == v.players.len()
            &&& w.players[i].0 == v.players[i].0
            &&& w.players[i].1.connected == v.players[i].1.connected
            &&& less(zero(), wait) ==> w.players[i].1.wave_call_cooldown == wait
            &&& at_most(wait, zero()) ==> w.players[i].1.wave_call_cooldown.zero()
        }),
{
    let s = spawned(b, m, v, dt);
    let f = fought(b, m, before_fire(b, m, s, dt), dt);
    let gone = fallen(f.creeps);
    lemma_waits_stay(f.players, gone, gone.len() as int, i);
}

proof fn lemma_waits_stay(players: Seq<(PlayerKey, Player)>, gone: Seq<(CreepId, Creep)>, n: int, i: int)
    requires
        0 <= i < players.len(),
    ensures
        ({
            let after = credited(players, gone, n);
            &&& after.len() == players.len()
            &&& after[i].0 == players[i].0
            &&& after[i].1.connected == players[i].1.connected
            &&& after[i].1.wave_call_cooldown == players[i].1.wave_call_cooldown
        }),
    decreases n,
{
    if n > 0 {
        lemma_waits_stay(players, gone, n - 1, i);
        lemma_place(credited(players, gone, n - 1), gone[n - 1].1.last_hit_by);
    }
}

} // verus!
