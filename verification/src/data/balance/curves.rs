//! How the numbers of the tables grow, from wave to wave and from level to level.

use crate::data::balance::{
    later_waves, lemma_raise_cost, lemma_spent, raise_cost, refund, rule_name, share, spent, tiers, wave_bounty, wave_hp, wave_speed,
    LoseRule, MatchRules, TowerView, WaveScaling,
};
use crate::order::{at_most, lemma_one, less, one, zero};
use crate::scalar::{
    from_whole, lemma_factors_swap, lemma_from_zero, lemma_product_grows, lemma_product_ordered, lemma_sum_not_below, lemma_times_zero,
    lemma_whole_part_of_whole, lemma_whole_part_ordered, lemma_whole_product, lemma_whole_sum, lemma_wholes_ordered, product,
    sum, Scalar,
};
use crate::text::{lemma_position, position};
use vstd::prelude::*;

verus! {

/// A number that grows by a step as often as it is told to never falls.
proof fn lemma_grows(base: Scalar, step: Scalar, low: int, high: int)
    requires
        base.finite(),
        at_most(zero(), base),
        step.finite(),
        at_most(zero(), step),
        0 <= low <= high <= u32::MAX,
    ensures
        at_most(sum(base, product(step, from_whole(low))), sum(base, product(step, from_whole(high)))),
        at_most(base, sum(base, product(step, from_whole(low)))),
{
    lemma_wholes_ordered(low, high);
    lemma_from_zero();
    lemma_wholes_ordered(0, low);
    lemma_product_ordered(from_whole(low), from_whole(high), step);
    lemma_product_ordered(from_whole(0), from_whole(low), step);
    lemma_times_zero(from_whole(0), step);
    lemma_factors_swap(from_whole(low), step);
    lemma_factors_swap(from_whole(high), step);
    let x = product(step, from_whole(low));
    let y = product(step, from_whole(high));
    lemma_sum_not_below(base, x);
    lemma_sum_not_below(base, y);
    if x.finite() && y.finite() {
        crate::scalar::lemma_sum_ordered(base, x, y);
    } else {
        reveal(sum);
    }
}

/// No wave is easier than the one before it, and none pays less: from wave to wave
/// health, speed, bounty and count never fall.
pub proof fn law_waves_never_get_easier(s: WaveScaling, early: u32, late: u32)
    requires
        early <= late,
        s.hp_base.finite() && less(zero(), s.hp_base),
        s.hp_growth.finite() && at_most(zero(), s.hp_growth),
        s.speed_base.finite() && at_most(zero(), s.speed_base),
        s.speed_growth.finite() && at_most(zero(), s.speed_growth),
        s.bounty_base.finite() && at_most(zero(), s.bounty_base),
        s.bounty_per_wave.finite() && at_most(zero(), s.bounty_per_wave),
        s.count_base.finite() && at_most(zero(), s.count_base),
        s.count_per_wave.finite() && at_most(zero(), s.count_per_wave),
    ensures
        at_most(wave_hp(s, early), wave_hp(s, late)),
        at_most(wave_speed(s, early), wave_speed(s, late)),
        wave_bounty(s, early) <= wave_bounty(s, late),
        1 <= share(s, early) <= share(s, late),
{
    let low = later_waves(early);
    let high = later_waves(late);
    lemma_one();
    lemma_grows(one(), s.hp_growth, low, high);
    lemma_product_grows(
        s.hp_base,
        sum(one(), product(s.hp_growth, from_whole(low))),
        sum(one(), product(s.hp_growth, from_whole(high))),
    );
    lemma_grows(s.speed_base, s.speed_growth, low, high);
    lemma_grows(s.bounty_base, s.bounty_per_wave, low, high);
    lemma_grows(s.count_base, s.count_per_wave, low, high);
    lemma_whole_part_ordered(
        sum(s.bounty_base, product(s.bounty_per_wave, from_whole(low))),
        sum(s.bounty_base, product(s.bounty_per_wave, from_whole(high))),
    );
    lemma_whole_part_ordered(
        sum(s.count_base, product(s.count_per_wave, from_whole(low))),
        sum(s.count_base, product(s.count_per_wave, from_whole(high))),
    );
}

pub(crate) proof fn lemma_whole_growth(base: int, step: int, times: int)
    requires
        0 <= base,
        0 <= step,
        0 <= times,
        base + step * times <= 0x100_0000,
        step <= 0x100_0000,
        times <= 0x100_0000,
    ensures
        sum(from_whole(base), product(from_whole(step), from_whole(times))) == from_whole(base + step * times),
        step * times >= 0,
{
    assert(step * times >= 0) by (nonlinear_arith)
        requires
            step >= 0,
            times >= 0,
    ;
    lemma_whole_product(step, times);
    lemma_whole_sum(base, step * times);
}

/// Whole tables grow by whole steps: each wave after the first adds its step of
/// speed, bounty and count once, and its share of the base health once.
pub proof fn law_each_wave_adds_its_step(s: WaveScaling, wave: u32, base: int, step: int)
    requires
        1 <= wave <= 0x100_0000,
        1 <= base,
        0 <= step <= 0x100_0000,
        base + step * (wave - 1) <= 0x100_0000,
    ensures
        s.hp_growth == from_whole(step) ==> wave_hp(s, wave) == product(s.hp_base, from_whole(1 + step * (wave - 1))),
        s.speed_base == from_whole(base) && s.speed_growth == from_whole(step) ==> wave_speed(s, wave) == from_whole(
            base + step * (wave - 1),
        ),
        s.bounty_base == from_whole(base) && s.bounty_per_wave == from_whole(step) ==> wave_bounty(s, wave) == base + step * (
        wave - 1),
        s.count_base == from_whole(base) && s.count_per_wave == from_whole(step) ==> share(s, wave) == base + step * (wave
            - 1),
{
    lemma_one();
    lemma_whole_growth(1, step, wave - 1);
    lemma_whole_growth(base, step, wave - 1);
    lemma_whole_part_of_whole(base + step * (wave - 1));
}

/// An upgrade never costs less than the one before it, and never less than the
/// table's base cost.
pub proof fn law_upgrades_never_get_cheaper(t: TowerView, level: u8)
    requires
        t.upgrade_growth.finite(),
        at_most(zero(), t.upgrade_growth),
        level < u8::MAX,
        1 <= t.upgrade_base_cost <= 0x100_0000,
    ensures
        t.upgrade_base_cost <= raise_cost(t, level) <= raise_cost(t, (level + 1) as u8),
        level <= 1 ==> raise_cost(t, level) == t.upgrade_base_cost,
{
    let next = (level + 1) as u8;
    let base = from_whole(t.upgrade_base_cost as int);
    lemma_one();
    lemma_grows(one(), t.upgrade_growth, tiers(level), tiers(next));
    let low = sum(one(), product(t.upgrade_growth, from_whole(tiers(level))));
    let high = sum(one(), product(t.upgrade_growth, from_whole(tiers(next))));
    crate::scalar::lemma_whole_positive(t.upgrade_base_cost as int);
    lemma_product_grows(base, low, high);
    lemma_product_grows(base, one(), low);
    crate::scalar::lemma_times_one(base);
    lemma_whole_part_ordered(product(base, low), product(base, high));
    lemma_whole_part_ordered(base, product(base, low));
    lemma_whole_part_of_whole(t.upgrade_base_cost as int);
    if level <= 1 {
        lemma_from_zero();
        lemma_times_zero(from_whole(0), t.upgrade_growth);
        crate::scalar::lemma_plus_zero(one(), product(t.upgrade_growth, from_whole(0)));
        assert(low == one());
    }
}

/// Each level makes the next upgrade dearer by the table's step of its base cost.
pub proof fn law_each_level_adds_its_step(t: TowerView, level: u8, step: int)
    requires
        level >= 1,
        t.upgrade_growth == from_whole(step),
        0 <= step <= 0x1_0000,
        t.upgrade_base_cost * (1 + step * (level - 1)) <= 0x100_0000,
        t.upgrade_base_cost <= 0x100_0000,
    ensures
        raise_cost(t, level) == t.upgrade_base_cost * (1 + step * (level - 1)),
{
    lemma_one();
    let times = level - 1;
    assert(0 <= step * times <= 0x1_0000 * 255) by (nonlinear_arith)
        requires
            0 <= step <= 0x1_0000,
            0 <= times <= 255,
    ;
    lemma_whole_growth(1, step, times);
    let base = t.upgrade_base_cost as int;
    lemma_whole_product(base, 1 + step * times);
    let cost = base * (1 + step * times);
    assert(cost >= 0) by (nonlinear_arith)
        requires
            cost == base * (1 + step * times),
            base >= 0,
            step * times >= 0,
    ;
    lemma_whole_part_of_whole(cost);
}

/// What was spent on a tower is its price and every upgrade it had, and a sale
/// returns the table's percentage of that, rounded down.
pub proof fn law_a_refund_is_a_share_of_the_spend(rules: MatchRules, t: TowerView, level: u8)
    ensures
        ({
            let percent = rules.sell_refund_percent;
            let back = refund(rules, t, level);
            &&& 100 * back <= spent(t, level) * percent < 100 * back + 100
            &&& percent == 100 ==> back == spent(t, level)
            &&& percent == 0 ==> back == 0
        }),
        level <= 1 ==> spent(t, level) == t.cost,
        1 <= level < u8::MAX ==> spent(t, (level + 1) as u8) == spent(t, level) + raise_cost(t, level),
        t.cost <= spent(t, level),
{
    lemma_spent(t, level);
    lemma_raise_cost(t, level);
    let total = spent(t, level);
    assert(total * 100 == 100 * total && total * 0 == 0) by (nonlinear_arith);
}

/// The two rules a match can be lost by have different names.
pub proof fn law_rules_have_names_of_their_own(a: LoseRule, b: LoseRule)
    requires
        a != b,
    ensures
        rule_name(a) != rule_name(b),
{
    reveal_strlit("lives");
    reveal_strlit("overrun");
    assert(rule_name(LoseRule::Lives).len() == 5);
    assert(rule_name(LoseRule::Overrun).len() == 7);
}

/// A table is looked up by the first entry with a key, and by no entry without it.
pub proof fn law_a_key_finds_its_first_entry(keys: Seq<Seq<char>>, key: Seq<char>)
    ensures
        position(keys, key) matches Some(i) ==> 0 <= i < keys.len() && keys[i] == key && !keys.take(i).contains(key),
        position(keys, key) is None <==> !keys.contains(key),
{
    lemma_position(keys, key);
    if let Some(i) = position(keys, key) {
        if keys.take(i).contains(key) {
            let j = choose|j: int| 0 <= j < i && keys.take(i)[j] == key;
            assert(keys[j] == key);
        }
        assert(keys.contains(key));
    }
}

} // verus!
