//! What holds of a match as a whole.

use crate::data::balance::{lemma_raise_cost, raise_cost, refund, spent, BalanceView, LoseRule, WaveScaling};
use crate::data::balance::validation::good_scaling;
use crate::data::reject::Reject;
use crate::map::MapView;
use crate::order::{at_most, half, lemma_half, lemma_half_step, lemma_one, less, one, smaller, zero};
use crate::scalar::{
    difference, from_whole, lemma_division_undone, lemma_factors_swap, lemma_fraction_of, lemma_from_zero, lemma_plus_zero,
    lemma_product_ordered, lemma_quotient_not_below, lemma_sum_ordered, lemma_times_one, lemma_times_zero, lemma_value_orders,
    lemma_whole_is_exact, lemma_whole_positive, lemma_whole_product, lemma_wholes_ordered, lemma_zero_plus, negated, product, quotient, sum, unit, Scalar,
};
use crate::sim::combat::{
    aims, arrived, at_the_goal, before_fire, charged, cooled, damaged, dead, fallen, fight_events, fought, in_reach, kill_events,
    leak_events, lemma_filtered, lemma_same_keys, marched, shot_of, target, Aim, Shot,
};
use crate::sim::economy::{built, credited, credited_one, paid, proceeds, purse_has_room, raised, sold};
use crate::sim::rng::{drawn, fraction, law_a_draw_stays_in_its_range, mixed, state_after};
use crate::sim::waves::{
    arrivals, called, clock_events, column, column_extent, drift, jitter_of, lemma_next_per_lane, lemma_spawned_is_good, newborn, next_per_lane, next_size, orderly,
    slot_end, slot_start, spacing, spawn_has_room, spawned, wave_due, wave_started,
};
use crate::sim::{
    fresh, good, joined, left, lost, played, rematch, step_events, step_has_room, stepped, way_left, Creep, CreepId, Player, PlayerKey,
    SimEvent, SimView, Tower,
};
use crate::table::{
    holds, lemma_dropping, lemma_place, lemma_place_is, lemma_set_then_drop, lemma_setting, place_of, setting, unique, value_of,
};
use crate::vector::{IVec2, Vec2};
use vstd::arithmetic::div_mod::{lemma_fundamental_div_mod, lemma_fundamental_div_mod_converse, lemma_mod_bound};
use vstd::prelude::*;

verus! {

// ---------------------------------------------------------------------------
// Intents
// ---------------------------------------------------------------------------

/// Whoever has no player record can do nothing in a match: every intent is
/// refused, and while the match runs the reason is that they are not in it.
pub proof fn law_a_stranger_is_refused(b: BalanceView, m: MapView, v: SimView, who: PlayerKey, cell: IVec2, kind: u8)
    requires
        !holds(v.players, who),
    ensures
        built(b, m, v, who, cell, kind) is Err,
        raised(b, v, who, cell) is Err,
        called(b, v, who) is Err,
        sold(b, v, who, cell) == Err::<SimView, Reject>(Reject::NotInMatch),
        !v.over ==> built(b, m, v, who, cell, kind) == Err::<SimView, Reject>(Reject::NotInMatch),
        !v.over ==> raised(b, v, who, cell) == Err::<SimView, Reject>(Reject::NotInMatch),
        !v.over ==> called(b, v, who) == Err::<SimView, Reject>(Reject::NotInMatch),
{
}

/// Two tables of players hold the same keys, in the same order.
pub open spec fn same_people(a: Seq<(PlayerKey, Player)>, b: Seq<(PlayerKey, Player)>) -> bool {
    a.len() == b.len() && forall|i: int| 0 <= i < a.len() ==> (#[trigger] a[i]).0 == b[i].0
}

/// No intent makes a player record or loses one.
pub proof fn law_intents_register_nobody(b: BalanceView, m: MapView, v: SimView, who: PlayerKey, cell: IVec2, kind: u8)
    ensures
        built(b, m, v, who, cell, kind) matches Ok(w) ==> same_people(w.players, v.players),
        raised(b, v, who, cell) matches Ok(w) ==> same_people(w.players, v.players),
        sold(b, v, who, cell) matches Ok(w) ==> same_people(w.players, v.players),
        called(b, v, who) matches Ok(w) ==> same_people(w.players, v.players),
{
    lemma_place(v.players, who);
}

/// A tower is upgraded or sold by its owner alone, and whoever is not the owner
/// is told so.
pub proof fn law_only_the_owner_touches_a_tower(b: BalanceView, v: SimView, who: PlayerKey, cell: IVec2)
    requires
        holds(v.players, who),
        holds(v.towers, cell),
        value_of(v.towers, cell).owner != who,
    ensures
        sold(b, v, who, cell) == Err::<SimView, Reject>(Reject::NotOwner),
        raised(b, v, who, cell) == Err::<SimView, Reject>(if v.over {
            Reject::MatchOver
        } else {
            Reject::NotOwner
        }),
{
}

/// Nobody's record but the caller's changes by an intent, and no tower but the
/// one on the cell it names.
pub proof fn law_an_intent_leaves_the_others_alone(
    b: BalanceView,
    m: MapView,
    v: SimView,
    who: PlayerKey,
    cell: IVec2,
    kind: u8,
    other: PlayerKey,
    elsewhere: IVec2,
)
    requires
        good(v),
        other != who,
        elsewhere != cell,
        holds(v.players, other),
        holds(v.towers, elsewhere),
    ensures
        built(b, m, v, who, cell, kind) matches Ok(w) ==> {
            &&& value_of(w.players, other) == value_of(v.players, other)
            &&& value_of(w.towers, elsewhere) == value_of(v.towers, elsewhere)
        },
        raised(b, v, who, cell) matches Ok(w) ==> {
            &&& value_of(w.players, other) == value_of(v.players, other)
            &&& value_of(w.towers, elsewhere) == value_of(v.towers, elsewhere)
        },
        sold(b, v, who, cell) matches Ok(w) ==> {
            &&& value_of(w.players, other) == value_of(v.players, other)
            &&& value_of(w.towers, elsewhere) == value_of(v.towers, elsewhere)
        },
        called(b, v, who) matches Ok(w) ==> {
            &&& value_of(w.players, other) == value_of(v.players, other)
            &&& w.towers == v.towers
        },
{
    if let Ok(w) = built(b, m, v, who, cell, kind) {
        lemma_setting(v.players, who, value_of(w.players, who), other);
        lemma_reads_alike(v.players, w.players, who, other);
        lemma_reads_alike(v.towers, w.towers, cell, elsewhere);
    }
    if let Ok(w) = raised(b, v, who, cell) {
        lemma_reads_alike(v.players, w.players, who, other);
        lemma_reads_alike(v.towers, w.towers, cell, elsewhere);
    }
    if let Ok(w) = sold(b, v, who, cell) {
        lemma_reads_alike(v.players, w.players, who, other);
        lemma_dropping(v.towers, cell, elsewhere);
    }
    if let Ok(w) = called(b, v, who) {
        lemma_reads_alike(v.players, w.players, who, other);
    }
}

proof fn lemma_reads_alike<K, V>(s: Seq<(K, V)>, t: Seq<(K, V)>, key: K, other: K)
    requires
        exists|x: V| t == #[trigger] setting(s, key, x),
        other != key,
        holds(s, other),
    ensures
        holds(t, other),
        value_of(t, other) == value_of(s, other),
{
    let x = choose|x: V| t == #[trigger] setting(s, key, x);
    lemma_setting(s, key, x, other);
}

/// Building a tower and selling it again costs what the tower costs less the
/// refund, which is never a gain; the board is as it was.
pub proof fn law_build_and_sell_never_gains(
    b: BalanceView,
    m: MapView,
    v: SimView,
    who: PlayerKey,
    cell: IVec2,
    kind: u8,
)
    requires
        b.match_rules.sell_refund_percent <= 100,
        built(b, m, v, who, cell, kind) is Ok,
    ensures
        ({
            let w = built(b, m, v, who, cell, kind)->Ok_0;
            let cost = b.towers[kind as int].cost;
            let back = refund(b.match_rules, b.towers[kind as int], 1);
            &&& sold(b, w, who, cell) is Ok
            &&& 0 <= back <= cost
            &&& sold(b, w, who, cell)->Ok_0.towers == v.towers
            &&& value_of(sold(b, w, who, cell)->Ok_0.players, who).gold == value_of(v.players, who).gold - cost + back
        }),
{
    let w = built(b, m, v, who, cell, kind)->Ok_0;
    let tower = Tower { kind, level: 1, owner: who, cooldown: zero() };
    let player = value_of(v.players, who);
    let cost = b.towers[kind as int].cost;
    let after = Player { gold: (player.gold - cost) as u32, ..player };
    lemma_setting(v.towers, cell, tower, cell);
    lemma_setting(v.players, who, after, who);
    lemma_set_then_drop(v.towers, cell, tower);
    crate::data::balance::law_a_sale_never_gains(b.match_rules, b.towers[kind as int], 1);
    let gold = (after.gold + proceeds(b, tower)) as u32;
    lemma_setting(w.players, who, Player { gold, ..after }, who);
    assert(cost * 1 == cost) by (nonlinear_arith);
}

/// An upgrade counts towards the refund: what the owner paid for it is what the
/// total spend on the tower grows by.
pub proof fn law_an_upgrade_counts_towards_the_refund(b: BalanceView, v: SimView, who: PlayerKey, cell: IVec2)
    requires
        raised(b, v, who, cell) is Ok,
        1 <= value_of(v.towers, cell).level < u8::MAX,
    ensures
        ({
            let w = raised(b, v, who, cell)->Ok_0;
            let before = value_of(v.towers, cell);
            let after = value_of(w.towers, cell);
            let stats = b.towers[before.kind as int];
            let paid_now = value_of(v.players, who).gold - value_of(w.players, who).gold;
            &&& after.kind == before.kind
            &&& paid_now == raise_cost(stats, before.level)
            &&& spent(stats, after.level) == spent(stats, before.level) + paid_now
            &&& proceeds(b, after) == spent(stats, after.level) * b.match_rules.sell_refund_percent / 100 % 0x1_0000_0000
        }),
{
    let before = value_of(v.towers, cell);
    let player = value_of(v.players, who);
    let cost = raise_cost(b.towers[before.kind as int], before.level);
    lemma_raise_cost(b.towers[before.kind as int], before.level);
    lemma_setting(v.towers, cell, Tower { level: (before.level + 1) as u8, ..before }, cell);
    lemma_setting(v.players, who, Player { gold: (player.gold - cost) as u32, ..player }, who);
}

/// A call for a wave is refused inside the caller's own cooldown, and nobody
/// else is held back by it.
pub proof fn law_a_call_holds_back_the_caller_alone(b: BalanceView, v: SimView, who: PlayerKey, other: PlayerKey)
    requires
        called(b, v, who) is Ok,
        other != who,
    ensures
        ({
            let w = called(b, v, who)->Ok_0;
            &&& less(zero(), b.match_rules.call_wave_cooldown) ==> called(b, w, who) == Err::<SimView, Reject>(
                Reject::RateLimited,
            )
            &&& called(b, w, other) is Ok <==> called(b, v, other) is Ok
            &&& called(b, w, other) is Err ==> called(b, w, other) == called(b, v, other)
        }),
{
    let player = Player { wave_call_cooldown: b.match_rules.call_wave_cooldown, ..value_of(v.players, who) };
    lemma_setting(v.players, who, player, other);
}

// ---------------------------------------------------------------------------
// Coming and going
// ---------------------------------------------------------------------------

/// Registering twice is registering once.
pub proof fn law_joining_is_idempotent(b: BalanceView, v: SimView, who: PlayerKey)
    ensures
        joined(b, joined(b, v, who), who) == joined(b, v, who),
{
    let once = joined(b, v, who);
    let player = value_of(once.players, who);
    lemma_place(v.players, who);
    lemma_setting(v.players, who, player, who);
    let fresh_one = Player { gold: b.match_rules.start_gold, kills: 0, connected: true, wave_call_cooldown: zero() };
    let known = Player { connected: true, ..value_of(v.players, who) };
    lemma_setting(v.players, who, fresh_one, who);
    lemma_setting(v.players, who, known, who);
    lemma_place(once.players, who);
    let twice = joined(b, once, who);
    assert(twice.players =~= once.players);
}

/// A player who leaves and comes back finds the same record, and the same
/// towers.
pub proof fn law_a_player_comes_back_to_their_record(b: BalanceView, v: SimView, who: PlayerKey)
    requires
        holds(v.players, who),
    ensures
        value_of(joined(b, left(v, who), who).players, who) == (Player { connected: true, ..value_of(v.players, who) }),
        joined(b, left(v, who), who).towers == v.towers,
        same_people(left(v, who).players, v.players),
{
    let gone = Player { connected: false, ..value_of(v.players, who) };
    lemma_place(v.players, who);
    lemma_setting(v.players, who, gone, who);
    let back = Player { connected: true, ..gone };
    lemma_setting(left(v, who).players, who, back, who);
}

/// A rematch of a rematch is the same rematch, and who is in the match stays.
pub proof fn law_a_rematch_is_a_fresh_start(b: BalanceView, v: SimView)
    ensures
        rematch(b, rematch(b, v)) == rematch(b, v),
        same_people(rematch(b, v).players, v.players),
        !rematch(b, v).over,
{
    assert(rematch(b, rematch(b, v)).players =~= rematch(b, v).players);
}

/// The state after these players registered, one after another.
pub open spec fn enrolled(b: BalanceView, v: SimView, keys: Seq<PlayerKey>) -> SimView
    decreases keys.len(),
{
    if keys.len() == 0 {
        v
    } else {
        joined(b, enrolled(b, v, keys.drop_last()), keys.last())
    }
}

/// A rematch among connected players is the match that begins when the same
/// players join a new one with the same seed: nothing of the match before is
/// left.
pub proof fn law_a_rematch_begins_like_a_new_match(b: BalanceView, v: SimView)
    requires
        good(v),
        forall|i: int| 0 <= i < v.players.len() ==> (#[trigger] v.players[i]).1.connected,
    ensures
        rematch(b, v) == enrolled(
            b,
            fresh(b, v.seed, Seq::empty()),
            v.players.map_values(|e: (PlayerKey, Player)| e.0),
        ),
    decreases v.players.len(),
{
    let keys = v.players.map_values(|e: (PlayerKey, Player)| e.0);
    if v.players.len() == 0 {
        assert(rematch(b, v).players =~= Seq::empty());
    } else {
        let shorter = SimView { players: v.players.drop_last(), ..v };
        let n = v.players.len() - 1;
        assert(unique(shorter.players)) by {
            assert forall|i: int, j: int| 0 <= i < j < shorter.players.len() implies (#[trigger] shorter.players[i]).0 != (
            #[trigger] shorter.players[j]).0 by {
                assert(v.players[i].0 != v.players[j].0);
            }
        }
        law_a_rematch_begins_like_a_new_match(b, shorter);
        assert(shorter.players.map_values(|e: (PlayerKey, Player)| e.0) =~= keys.drop_last());
        let before = rematch(b, shorter);
        let key = v.players[n].0;
        lemma_place(before.players, key);
        if holds(before.players, key) {
            let p = place_of(before.players, key);
            assert(v.players[p].0 != v.players[n].0);
        }
        assert(rematch(b, v).players =~= joined(b, before, key).players);
    }
}

// ---------------------------------------------------------------------------
// Replays
// ---------------------------------------------------------------------------

/// Something that happens to a match.
pub ghost enum Happening {
    Tick(Scalar),
    Join(PlayerKey),
    Leave(PlayerKey),
    Build(PlayerKey, IVec2, u8),
    Upgrade(PlayerKey, IVec2),
    Sell(PlayerKey, IVec2),
    Call(PlayerKey),
}

/// The state an intent leaves: the one it led to, or the same where it was
/// refused.
pub open spec fn settled(v: SimView, outcome: Result<SimView, Reject>) -> SimView {
    match outcome {
        Ok(w) => w,
        Err(_) => v,
    }
}

/// The state after something happened.
pub open spec fn ensuing(b: BalanceView, m: MapView, v: SimView, h: Happening) -> SimView {
    match h {
        Happening::Tick(dt) => stepped(b, m, v, dt),
        Happening::Join(who) => joined(b, v, who),
        Happening::Leave(who) => left(v, who),
        Happening::Build(who, cell, kind) => settled(v, built(b, m, v, who, cell, kind)),
        Happening::Upgrade(who, cell) => settled(v, raised(b, v, who, cell)),
        Happening::Sell(who, cell) => settled(v, sold(b, v, who, cell)),
        Happening::Call(who) => settled(v, called(b, v, who)),
    }
}

/// The state after everything in a script happened.
pub open spec fn outcome(b: BalanceView, m: MapView, v: SimView, script: Seq<Happening>) -> SimView
    decreases script.len(),
{
    if script.len() == 0 {
        v
    } else {
        ensuing(b, m, outcome(b, m, v, script.drop_last()), script.last())
    }
}

/// What is announced while everything in a script happens.
pub open spec fn announced(b: BalanceView, m: MapView, v: SimView, script: Seq<Happening>) -> Seq<SimEvent>
    decreases script.len(),
{
    if script.len() == 0 {
        Seq::empty()
    } else {
        let before = announced(b, m, v, script.drop_last());
        match script.last() {
            Happening::Tick(dt) => before + step_events(b, m, outcome(b, m, v, script.drop_last()), dt),
            _ => before,
        }
    }
}

proof fn lemma_the_seed_stays(b: BalanceView, m: MapView, v: SimView, script: Seq<Happening>)
    ensures
        outcome(b, m, v, script).seed == v.seed,
    decreases script.len(),
{
    if script.len() > 0 {
        lemma_the_seed_stays(b, m, v, script.drop_last());
    }
}

/// A seed buys a replay. Whatever happened to a match before it is reset, the
/// same people, tables and board then play out a script -- ticks, comings and
/// goings, intents -- exactly as they would in a new match with the first one's
/// seed: the same state after it, and the same events while it runs.
pub proof fn law_the_same_seed_is_the_same_match(
    b: BalanceView,
    m: MapView,
    seed: u64,
    past: Seq<Happening>,
    script: Seq<Happening>,
)
    requires
        ({
            let v = outcome(b, m, fresh(b, seed, Seq::empty()), past);
            &&& good(v)
            &&& forall|i: int| 0 <= i < v.players.len() ==> (#[trigger] v.players[i]).1.connected
        }),
    ensures
        ({
            let v = outcome(b, m, fresh(b, seed, Seq::empty()), past);
            let people = v.players.map_values(|e: (PlayerKey, Player)| e.0);
            let anew = enrolled(b, fresh(b, seed, Seq::empty()), people);
            &&& outcome(b, m, rematch(b, v), script) == outcome(b, m, anew, script)
            &&& announced(b, m, rematch(b, v), script) == announced(b, m, anew, script)
        }),
{
    let v = outcome(b, m, fresh(b, seed, Seq::empty()), past);
    lemma_the_seed_stays(b, m, fresh(b, seed, Seq::empty()), past);
    law_a_rematch_begins_like_a_new_match(b, v);
}

// ---------------------------------------------------------------------------
// The end
// ---------------------------------------------------------------------------

/// A match that is over stays over, whatever anybody does but a rematch: a tick
/// changes nothing and announces nothing, and nothing can be built, upgraded or
/// called.
pub proof fn law_a_lost_match_stays_lost(
    b: BalanceView,
    m: MapView,
    v: SimView,
    dt: Scalar,
    who: PlayerKey,
    cell: IVec2,
    kind: u8,
)
    requires
        v.over,
    ensures
        stepped(b, m, v, dt) == v,
        step_events(b, m, v, dt) == Seq::<SimEvent>::empty(),
        built(b, m, v, who, cell, kind) == Err::<SimView, Reject>(Reject::MatchOver),
        raised(b, v, who, cell) == Err::<SimView, Reject>(Reject::MatchOver),
        called(b, v, who) == Err::<SimView, Reject>(Reject::MatchOver),
        sold(b, v, who, cell) matches Ok(w) ==> w.over,
        joined(b, v, who).over,
        left(v, who).over,
{
}

/// A tick ends the match, and says so as the last thing it says, exactly when it
/// leaves the match lost.
pub proof fn law_the_end_is_announced_once(b: BalanceView, m: MapView, v: SimView, dt: Scalar)
    ensures
        ({
            let events = step_events(b, m, v, dt);
            let w = stepped(b, m, v, dt);
            &&& !v.over ==> (w.over <==> lost(b, w))
            &&& (!v.over && w.over) <==> events.contains(SimEvent::GameOver)
            &&& forall|i: int| 0 <= i < events.len() - 1 ==> (#[trigger] events[i]) != SimEvent::GameOver
        }),
{
    let events = step_events(b, m, v, dt);
    if !v.over {
        let a = clock_events(b, m, v, dt);
        let f = fight_events(b, m, spawned(b, m, v, dt), dt);
        let w = played(b, m, v, dt);
        lemma_over_is_set_by_the_end_alone(b, m, v, dt);
        assert(lost(b, w) == lost(b, stepped(b, m, v, dt)));
        assert forall|i: int| 0 <= i < a.len() implies (#[trigger] a[i]) != SimEvent::GameOver by {
            if i > 0 {
                assert(a[i] == arrivals(v.next_id, next_size(b, m, v))[i - 1]);
            }
        }
        assert forall|i: int| 0 <= i < f.len() implies (#[trigger] f[i]) != SimEvent::GameOver by {
            lemma_fight_events_are(b, m, spawned(b, m, v, dt), dt, i);
        }
        assert forall|i: int| 0 <= i < (a + f).len() implies (#[trigger] (a + f)[i]) != SimEvent::GameOver by {
            if i >= a.len() {
                assert((a + f)[i] == f[i - a.len()]);
            } else {
                assert((a + f)[i] == a[i]);
            }
        }
        if lost(b, w) {
            assert(events[events.len() - 1] == SimEvent::GameOver);
            assert forall|i: int| 0 <= i < events.len() - 1 implies (#[trigger] events[i]) != SimEvent::GameOver by {
                assert(events[i] == (a + f)[i]);
            }
        } else {
            assert(events == a + f);
        }
    }
}

proof fn lemma_over_is_set_by_the_end_alone(b: BalanceView, m: MapView, v: SimView, dt: Scalar)
    ensures
        played(b, m, v, dt).over == v.over,
{
}

proof fn lemma_fight_events_are(b: BalanceView, m: MapView, v: SimView, dt: Scalar, i: int)
    requires
        0 <= i < fight_events(b, m, v, dt).len(),
    ensures
        i < leak_events(m, marched(v, dt)).len() ==> fight_events(b, m, v, dt)[i] is Leaked,
        i >= leak_events(m, marched(v, dt)).len() ==> fight_events(b, m, v, dt)[i] is CreepKilled,
{
    let leaks = leak_events(m, marched(v, dt));
    let w = fought(b, m, before_fire(b, m, v, dt), dt);
    let kills = kill_events(w);
    if i < leaks.len() {
        assert(fight_events(b, m, v, dt)[i] == leaks[i]);
        assert(leaks[i] == SimEvent::Leaked(at_the_goal(m, marched(v, dt).creeps)[i].0));
    } else {
        let k = i - leaks.len();
        assert(fight_events(b, m, v, dt)[i] == kills[k]);
        assert(kills[k] == SimEvent::CreepKilled(fallen(w.creeps)[k].0));
    }
}

// ---------------------------------------------------------------------------
// A tick
// ---------------------------------------------------------------------------

/// A creep that reached the goal is off the board before anything may shoot it:
/// no tower aims at it, it is announced as leaked, and nobody is paid for it.
pub proof fn law_an_arrival_leaks_before_it_can_be_shot(b: BalanceView, m: MapView, v: SimView, dt: Scalar, i: int)
    requires
        good(v),
        !v.over,
        spawn_has_room(b, m, v, dt),
        0 <= i < marched(spawned(b, m, v, dt), dt).creeps.len(),
        arrived(m, marched(spawned(b, m, v, dt), dt).creeps[i].1),
    ensures
        ({
            let id = marched(spawned(b, m, v, dt), dt).creeps[i].0;
            let events = step_events(b, m, v, dt);
            &&& events.contains(SimEvent::Leaked(id))
            &&& !events.contains(SimEvent::CreepKilled(id))
            &&& !holds(stepped(b, m, v, dt).creeps, id)
        }),
{
    let s = spawned(b, m, v, dt);
    let moving = marched(s, dt);
    let id = moving.creeps[i].0;
    lemma_spawned_is_good(b, m, v, dt);
    lemma_same_keys(s, moving.creeps);
    let stay = |e: (CreepId, Creep)| !arrived(m, e.1);
    let go = |e: (CreepId, Creep)| arrived(m, e.1);
    let left_over = before_fire(b, m, s, dt);
    lemma_filtered(moving.creeps, stay);
    lemma_filtered(moving.creeps, go);
    // Nothing of what stays has the id.
    assert forall|j: int| 0 <= j < left_over.creeps.len() implies (#[trigger] left_over.creeps[j]).0 != id by {
        let k = choose|k: int| 0 <= k < moving.creeps.len() && moving.creeps[k] == left_over.creeps[j];
        assert(k != i);
        if k < i {
            assert(moving.creeps[k].0 != moving.creeps[i].0);
        } else {
            assert(moving.creeps[i].0 != moving.creeps[k].0);
        }
    }
    let w = fought(b, m, left_over, dt);
    lemma_damage_keeps_keys(
        m,
        left_over.creeps,
        aims(b, m, left_over, dt, left_over.towers.len() as int).map_values(|a: Aim| shot_of(a)),
        aims(b, m, left_over, dt, left_over.towers.len() as int).len() as int,
    );
    assert forall|j: int| 0 <= j < w.creeps.len() implies (#[trigger] w.creeps[j]).0 != id by {
        assert(w.creeps[j].0 == left_over.creeps[j].0);
    }
    // The leak is announced.
    moving.creeps.lemma_filter_contains(go, i);
    let gone = at_the_goal(m, moving.creeps);
    let p = choose|p: int| 0 <= p < gone.len() && gone[p] == moving.creeps[i];
    let a = clock_events(b, m, v, dt);
    let leaks = leak_events(m, moving);
    let kills = kill_events(w);
    let events = step_events(b, m, v, dt);
    assert(leaks[p] == SimEvent::Leaked(id));
    assert((a + (leaks + kills))[a.len() + p] == leaks[p]);
    assert(events[a.len() + p] == SimEvent::Leaked(id));
    // No kill is.
    if events.contains(SimEvent::CreepKilled(id)) {
        let q = choose|q: int| 0 <= q < events.len() && events[q] == SimEvent::CreepKilled(id);
        if q < a.len() {
            assert(events[q] == a[q]);
            if q > 0 {
                assert(a[q] == arrivals(v.next_id, next_size(b, m, v))[q - 1]);
            }
        } else if q < a.len() + leaks.len() {
            assert(events[q] == leaks[q - a.len()]);
        } else if q < a.len() + leaks.len() + kills.len() {
            let k = q - a.len() - leaks.len();
            assert(events[q] == kills[k]);
            let dead_ones = fallen(w.creeps);
            assert(kills[k] == SimEvent::CreepKilled(dead_ones[k].0));
            lemma_filter_holds(w.creeps, |e: (CreepId, Creep)| dead(e.1), k);
        }
    }
    // And the board does not hold it.
    let after = stepped(b, m, v, dt).creeps;
    lemma_place(after, id);
    if holds(after, id) {
        let q = place_of(after, id);
        lemma_filter_holds(w.creeps, |e: (CreepId, Creep)| !dead(e.1), q);
    }
}

/// What is filtered was there.
pub(crate) proof fn lemma_filter_holds<A>(s: Seq<A>, keep: spec_fn(A) -> bool, i: int)
    requires
        0 <= i < s.filter(keep).len(),
    ensures
        s.contains(s.filter(keep)[i]),
        keep(s.filter(keep)[i]),
    decreases s.len(),
{
    reveal(Seq::filter);
    let front = s.drop_last();
    let part = front.filter(keep);
    if i < part.len() {
        lemma_filter_holds(front, keep, i);
        let k = choose|k: int| 0 <= k < front.len() && front[k] == part[i];
        assert(s[k] == part[i]);
    } else {
        assert(s[s.len() - 1] == s.filter(keep)[i]);
    }
}

proof fn lemma_damage_keeps_keys(m: MapView, creeps: Seq<(CreepId, Creep)>, shots: Seq<Shot>, n: int)
    requires
        0 <= n <= shots.len(),
    ensures
        damaged(m, creeps, shots, n).len() == creeps.len(),
        forall|i: int| 0 <= i < creeps.len() ==> (#[trigger] damaged(m, creeps, shots, n)[i]).0 == creeps[i].0,
    decreases n,
{
    if n > 0 {
        lemma_damage_keeps_keys(m, creeps, shots, n - 1);
    }
}

/// No creep that is dead outlives the tick it died in.
pub proof fn law_the_dead_are_reaped_at_once(b: BalanceView, m: MapView, v: SimView, dt: Scalar, i: int)
    requires
        !v.over,
        0 <= i < stepped(b, m, v, dt).creeps.len(),
    ensures
        !dead(stepped(b, m, v, dt).creeps[i].1),
{
    let w = fought(b, m, before_fire(b, m, spawned(b, m, v, dt), dt), dt);
    lemma_filter_holds(w.creeps, |e: (CreepId, Creep)| !dead(e.1), i);
}

/// The leaks that a list of announcements holds.
pub open spec fn leaks_in(events: Seq<SimEvent>) -> int {
    events.filter(|e: SimEvent| e is Leaked).len() as int
}

/// Every leak is counted once and announced once, and costs a life where lives
/// are what the match is played for.
pub proof fn law_a_leak_is_counted_and_announced(b: BalanceView, m: MapView, v: SimView, dt: Scalar)
    ensures
        ({
            let w = stepped(b, m, v, dt);
            let n = leaks_in(step_events(b, m, v, dt));
            &&& w.leaks == v.leaks + n
            &&& b.match_rules.lose_rule == LoseRule::Overrun ==> w.lives == v.lives
            &&& b.match_rules.lose_rule == LoseRule::Lives && v.lives >= 0 ==> w.lives == (if v.lives > n {
                v.lives - n
            } else {
                0
            })
        }),
{
    let is_leak = |e: SimEvent| e is Leaked;
    let events = step_events(b, m, v, dt);
    if v.over {
        reveal(Seq::filter);
        assert(events.filter(is_leak).len() == 0);
    } else {
        let s = spawned(b, m, v, dt);
        let a = clock_events(b, m, v, dt);
        let leaks = leak_events(m, marched(s, dt));
        let kills = kill_events(fought(b, m, before_fire(b, m, s, dt), dt));
        assert forall|i: int| 0 <= i < a.len() implies !is_leak(#[trigger] a[i]) by {
            if i > 0 {
                assert(a[i] == arrivals(v.next_id, next_size(b, m, v))[i - 1]);
            }
        }
        lemma_filter_none(a, is_leak);
        lemma_filter_all(leaks, is_leak);
        lemma_filter_none(kills, is_leak);
        Seq::filter_distributes_over_add(leaks, kills, is_leak);
        Seq::filter_distributes_over_add(a, leaks + kills, is_leak);
        let fight = a + (leaks + kills);
        if lost(b, played(b, m, v, dt)) {
            reveal(Seq::filter);
            assert(events.drop_last() =~= fight);
        }
        assert(events.filter(is_leak).len() == leaks.len());
    }
}

proof fn lemma_filter_none<A>(s: Seq<A>, keep: spec_fn(A) -> bool)
    requires
        forall|i: int| 0 <= i < s.len() ==> !keep(#[trigger] s[i]),
    ensures
        s.filter(keep).len() == 0,
    decreases s.len(),
{
    reveal(Seq::filter);
    if s.len() > 0 {
        assert forall|i: int| 0 <= i < s.drop_last().len() implies !keep(#[trigger] s.drop_last()[i]) by {
            assert(s.drop_last()[i] == s[i]);
        }
        lemma_filter_none(s.drop_last(), keep);
    }
}

proof fn lemma_filter_all<A>(s: Seq<A>, keep: spec_fn(A) -> bool)
    requires
        forall|i: int| 0 <= i < s.len() ==> keep(#[trigger] s[i]),
    ensures
        s.filter(keep).len() == s.len(),
    decreases s.len(),
{
    reveal(Seq::filter);
    if s.len() > 0 {
        assert forall|i: int| 0 <= i < s.drop_last().len() implies keep(#[trigger] s.drop_last()[i]) by {
            assert(s.drop_last()[i] == s[i]);
        }
        lemma_filter_all(s.drop_last(), keep);
    }
}

/// A tick neither makes a player record nor loses one, and it touches nothing of
/// a tower but its cooldown. The seed of the match stays.
pub proof fn law_a_tick_builds_nothing(b: BalanceView, m: MapView, v: SimView, dt: Scalar)
    requires
        good(v),
    ensures
        ({
            let w = stepped(b, m, v, dt);
            &&& same_people(w.players, v.players)
            &&& w.towers.len() == v.towers.len()
            &&& forall|i: int|
                0 <= i < v.towers.len() ==> {
                    &&& (#[trigger] w.towers[i]).0 == v.towers[i].0
                    &&& w.towers[i].1 == (Tower { cooldown: w.towers[i].1.cooldown, ..v.towers[i].1 })
                }
            &&& w.seed == v.seed
        }),
{
    if !v.over {
        let s = before_fire(b, m, spawned(b, m, v, dt), dt);
        let all = aims(b, m, s, dt, s.towers.len() as int);
        lemma_charging(cooled(s, dt).towers, all, all.len() as int);
        let w = fought(b, m, s, dt);
        let gone = fallen(w.creeps);
        lemma_crediting(w.players, gone, gone.len() as int);
    }
}

proof fn lemma_charging(towers: Seq<(IVec2, Tower)>, all: Seq<Aim>, n: int)
    requires
        0 <= n <= all.len(),
    ensures
        charged(towers, all, n).len() == towers.len(),
        forall|i: int|
            0 <= i < towers.len() ==> {
                &&& (#[trigger] charged(towers, all, n)[i]).0 == towers[i].0
                &&& charged(towers, all, n)[i].1 == (Tower {
                    cooldown: charged(towers, all, n)[i].1.cooldown,
                    ..towers[i].1
                })
            },
    decreases n,
{
    if n > 0 {
        lemma_charging(towers, all, n - 1);
        lemma_place(charged(towers, all, n - 1), all[n - 1].cell);
    }
}

proof fn lemma_crediting(players: Seq<(PlayerKey, Player)>, gone: Seq<(CreepId, Creep)>, n: int)
    ensures
        same_people(credited(players, gone, n), players),
    decreases n,
{
    if n > 0 {
        lemma_crediting(players, gone, n - 1);
        lemma_place(credited(players, gone, n - 1), gone[n - 1].1.last_hit_by);
    }
}

/// Of the creeps in reach a tower takes one that no other is closer to the goal
/// than, and where one is in reach it takes one.
pub proof fn law_the_target_is_closest_to_the_goal(
    m: MapView,
    creeps: Seq<(CreepId, Creep)>,
    origin: Vec2,
    range: Scalar,
    n: int,
    other: int,
)
    requires
        0 <= other < n <= creeps.len(),
        in_reach(m, creeps[other].1, origin, range),
    ensures
        target(m, creeps, origin, range, n) matches Some(best) && 0 <= best < n && in_reach(
            m,
            creeps[best].1,
            origin,
            range,
        ) && !less(way_left(m, creeps[other].1), way_left(m, creeps[best].1)),
    decreases n,
{
    lemma_target_is_in_reach(m, creeps, origin, range, n - 1);
    if other < n - 1 {
        law_the_target_is_closest_to_the_goal(m, creeps, origin, range, n - 1, other);
    }
}

pub(crate) proof fn lemma_target_is_in_reach(m: MapView, creeps: Seq<(CreepId, Creep)>, origin: Vec2, range: Scalar, n: int)
    requires
        0 <= n <= creeps.len(),
    ensures
        target(m, creeps, origin, range, n) matches Some(best) ==> 0 <= best < n && in_reach(
            m,
            creeps[best].1,
            origin,
            range,
        ),
    decreases n,
{
    if n > 0 {
        lemma_target_is_in_reach(m, creeps, origin, range, n - 1);
    }
}

// ---------------------------------------------------------------------------
// Waves
// ---------------------------------------------------------------------------

/// A wave that was called starts on the very next tick.
pub proof fn law_a_called_wave_starts_on_the_next_tick(
    b: BalanceView,
    m: MapView,
    v: SimView,
    who: PlayerKey,
    dt: Scalar,
)
    requires
        called(b, v, who) is Ok,
        dt.finite(),
        at_most(zero(), dt),
    ensures
        ({
            let w = called(b, v, who)->Ok_0;
            &&& wave_due(w, dt)
            &&& step_events(b, m, w, dt).len() > 0
            &&& step_events(b, m, w, dt)[0] == SimEvent::WaveStarted((v.wave + 1) as u32)
            &&& stepped(b, m, w, dt).wave == v.wave + 1
            &&& stepped(b, m, w, dt).wave_timer == b.match_rules.wave_interval
        }),
{
    lemma_zero_plus(zero(), negated(dt));
}

/// A wave sends every lane its whole share: creep `i` of a lane stands at its
/// place in the wave, at full health, on that lane.
pub proof fn law_every_lane_gets_its_share(b: BalanceView, m: MapView, v: SimView, lane: int, i: int)
    requires
        0 <= lane < m.lanes.len() <= 256,
        0 <= i < next_per_lane(b, v),
    ensures
        ({
            let n = next_per_lane(b, v);
            let w = wave_started(b, m, v);
            let k = v.creeps.len() + lane * n + i;
            &&& w.creeps.len() == v.creeps.len() + n * m.lanes.len()
            &&& 0 <= k < w.creeps.len()
            &&& w.creeps[k].1.lane == lane
            &&& w.creeps[k].1.hp == w.creeps[k].1.max_hp
        }),
{
    let n = next_per_lane(b, v);
    let lanes = m.lanes.len() as int;
    let k = lane * n + i;
    assert(0 <= k < n * lanes) by (nonlinear_arith)
        requires
            k == lane * n + i,
            0 <= lane < lanes,
            0 <= i < n,
    ;
    lemma_fundamental_div_mod_converse(k, n, lane, i);
    let w = wave_started(b, m, v);
    assert(w.creeps[v.creeps.len() + k] == column(
        b,
        (v.wave + 1) as u32,
        n,
        v.rng,
        v.next_id,
        next_size(b, m, v),
    )[k]);
}

/// The gap of a column under sound tables is a number, and not negative.
proof fn lemma_spacing(s: WaveScaling, n: int)
    requires
        good_scaling(s),
        1 <= n <= u32::MAX,
    ensures
        at_most(zero(), spacing(n, s.spawn_gap, s.spawn_arc)),
        at_most(spacing(n, s.spawn_gap, s.spawn_arc), s.spawn_gap),
{
    if n > 1 {
        lemma_whole_positive(n - 1);
        lemma_quotient_not_below(s.spawn_arc, from_whole(n - 1));
    }
}

/// The centre of a slot lies between its ends.
proof fn lemma_slot(gap: Scalar, i: int)
    requires
        at_most(zero(), gap),
        0 <= i < u32::MAX,
    ensures
        at_most(slot_start(gap, i), slot_end(gap, i)),
        gap.finite() ==> at_most(slot_start(gap, i), product(from_whole(i), gap)),
        gap.finite() ==> at_most(product(from_whole(i), gap), slot_end(gap, i)),
{
    lemma_half_step(i);
    lemma_wholes_ordered(i, i);
    let before = if i == 0 {
        negated(half())
    } else {
        lemma_half_step(i - 1);
        sum(from_whole(i - 1), half())
    };
    let after = sum(from_whole(i), half());
    if i == 0 {
        lemma_from_zero();
    }
    assert(before.finite() && !before.zero() && before.position() <= from_whole(i).position() <= after.position());
    if gap.finite() {
        lemma_product_ordered(before, from_whole(i), gap);
        lemma_product_ordered(from_whole(i), after, gap);
    } else {
        reveal(product);
    }
}

/// Where a creep of a sound table's column stands is a number.
proof fn lemma_placed(b: BalanceView, n: int, rng: u64, k: int)
    requires
        good_scaling(b.scaling),
        b.scaling.spawn_gap.finite(),
        1 <= n <= u32::MAX,
    ensures
        ({
            let s = b.scaling;
            let gap = spacing(n, s.spawn_gap, s.spawn_arc);
            let j = jitter_of(b, n);
            &&& orderly(gap, s.spawn_jitter)
            &&& gap.finite()
            &&& j.finite()
            &&& at_most(zero(), j)
            &&& drift(j, rng, k).finite()
            &&& at_most(negated(j), drift(j, rng, k))
            &&& at_most(drift(j, rng, k), j)
            &&& !sum(product(from_whole(k % n), gap), drift(j, rng, k)).nan()
        }),
{
    let s = b.scaling;
    let gap = spacing(n, s.spawn_gap, s.spawn_arc);
    lemma_spacing(s, n);
    lemma_half();
    lemma_value_orders(s.spawn_jitter, half());
    let j = jitter_of(b, n);
    if s.spawn_jitter.zero() {
        lemma_times_zero(s.spawn_jitter, gap);
    } else {
        lemma_fraction_of(gap, s.spawn_jitter);
        lemma_value_orders(j, zero());
        assert(crate::scalar::magnitude(0) == 0);
    }
    if less(negated(j), j) {
        law_a_draw_stays_in_its_range(negated(j), j, mixed(state_after(rng, (k + 1) as nat)));
    }
    lemma_mod_bound(k, n);
    lemma_wholes_ordered(k % n, k % n);
    lemma_product_ordered(from_whole(k % n), from_whole(k % n), gap);
    reveal(sum);
    let slot = product(from_whole(k % n), gap);
    if slot.finite() {
        lemma_sum_ordered(slot, drift(j, rng, k), drift(j, rng, k));
    }
}

/// Within a lane a wave keeps its order: of two creeps of a lane the one with
/// the later id is never behind in the column, wherever the jitter put them. An
/// infinite gap is left out: its slots are nowhere.
pub proof fn law_a_wave_keeps_its_order(b: BalanceView, wave: u32, n: int, rng: u64, first: int, second: int)
    requires
        good_scaling(b.scaling),
        b.scaling.spawn_gap.finite(),
        1 <= n <= u32::MAX,
        0 <= first <= second,
        first / n == second / n,
    ensures
        newborn(b, wave, n, rng, first).lane == newborn(b, wave, n, rng, second).lane,
        at_most(newborn(b, wave, n, rng, first).dist, newborn(b, wave, n, rng, second).dist),
    decreases second - first,
{
    let s = b.scaling;
    let gap = spacing(n, s.spawn_gap, s.spawn_arc);
    lemma_placed(b, n, rng, second);
    lemma_mod_bound(second, n);
    lemma_slot(gap, second % n);
    if first < second {
        let middle = second - 1;
        let lane = first / n;
        lemma_fundamental_div_mod(first, n);
        lemma_fundamental_div_mod(second, n);
        lemma_mod_bound(first, n);
        let i = middle - n * lane;
        assert(0 <= i < n - 1);
        assert(middle == lane * n + i) by (nonlinear_arith)
            requires
                i == middle - n * lane,
        ;
        lemma_fundamental_div_mod_converse(middle, n, lane, i);
        assert(second % n == i + 1);
        law_a_wave_keeps_its_order(b, wave, n, rng, first, middle);
        lemma_placed(b, n, rng, middle);
        lemma_slot(gap, i);
        assert(slot_start(gap, i + 1) == slot_end(gap, i));
    }
}

/// A wave stays inside its arc: no creep of it enters further along its lane
/// than the arc allows, however many there are and whatever the jitter. An
/// infinite gap is left out: its slots are nowhere.
pub proof fn law_a_wave_stays_inside_its_arc(b: BalanceView, wave: u32, n: int, rng: u64, next_id: int, total: int, k: int)
    requires
        good_scaling(b.scaling),
        b.scaling.spawn_gap.finite(),
        1 <= n <= u32::MAX,
        0 <= k < total,
    ensures
        at_most(column(b, wave, n, rng, next_id, total)[k].1.dist, b.scaling.spawn_arc),
{
    lemma_placed(b, n, rng, k);
    lemma_mod_bound(k, n);
    lemma_slot(spacing(n, b.scaling.spawn_gap, b.scaling.spawn_arc), k % n);
}

/// A creep enters within the jitter of its slot in the column, or at the end of
/// the arc where its slot is cut off there.
pub proof fn law_a_wave_enters_in_a_column(b: BalanceView, wave: u32, n: int, rng: u64, k: int)
    requires
        good_scaling(b.scaling),
        1 <= n <= u32::MAX,
        b.scaling.spawn_gap.finite(),
        product(from_whole(k % n), spacing(n, b.scaling.spawn_gap, b.scaling.spawn_arc)).finite(),
    ensures
        ({
            let j = jitter_of(b, n);
            let slot = product(from_whole(k % n), spacing(n, b.scaling.spawn_gap, b.scaling.spawn_arc));
            let dist = newborn(b, wave, n, rng, k).dist;
            &&& at_most(smaller(difference(slot, j), b.scaling.spawn_arc), dist)
            &&& at_most(dist, smaller(sum(slot, j), b.scaling.spawn_arc))
        }),
{
    let s = b.scaling;
    let i = k % n;
    lemma_mod_bound(k, n);
    let gap = spacing(n, s.spawn_gap, s.spawn_arc);
    lemma_placed(b, n, rng, k);
    lemma_slot(gap, i);
    let j = jitter_of(b, n);
    let slot = product(from_whole(i), gap);
    let d = drift(j, rng, k);
    lemma_sum_ordered(slot, negated(j), d);
    lemma_sum_ordered(slot, d, j);
    lemma_sum_ordered(slot, negated(j), zero());
    lemma_sum_ordered(slot, zero(), j);
    lemma_plus_zero(slot, zero());
}

/// The slots of a column fit its arc: however many creeps it holds, it is no
/// longer than the arc or the number next to it, so a rounding is the most it can
/// overrun by.
pub proof fn law_a_column_fits_its_arc(count: int, gap: Scalar, arc: Scalar)
    requires
        1 <= count <= 0x100_0001,
        at_most(zero(), gap),
        gap.finite(),
        arc.finite(),
        at_most(one(), arc),
    ensures
        ({
            let length = column_extent(count, gap, arc);
            !length.nan() && length.position() <= arc.position() + 1
        }),
{
    lemma_one();
    if count == 1 {
        lemma_from_zero();
        lemma_times_zero(from_whole(0), gap);
    } else {
        lemma_whole_is_exact(1);
        assert(1 * unit() == unit()) by (nonlinear_arith);
        lemma_value_orders(one(), arc);
        lemma_whole_positive(count - 1);
        lemma_quotient_not_below(arc, from_whole(count - 1));
        lemma_division_undone(arc, count - 1, spacing(count, gap, arc));
    }
}

/// The ids of creeps are never handed out twice: a creep on the board after a
/// tick was there under its id before, or has an id past all that were ever
/// handed out.
pub proof fn law_ids_are_not_reused(b: BalanceView, m: MapView, v: SimView, dt: Scalar, i: int)
    requires
        good(v),
        step_has_room(b, m, v, dt),
        0 <= i < stepped(b, m, v, dt).creeps.len(),
    ensures
        holds(v.creeps, stepped(b, m, v, dt).creeps[i].0) || stepped(b, m, v, dt).creeps[i].0.0 >= v.next_id,
        stepped(b, m, v, dt).next_id >= v.next_id,
{
    if v.over {
        lemma_place_is(v.creeps, i);
    } else {
        let s = spawned(b, m, v, dt);
        let moving = marched(s, dt);
        let w = before_fire(b, m, s, dt);
        let all = aims(b, m, w, dt, w.towers.len() as int);
        let f = fought(b, m, w, dt);
        let id = stepped(b, m, v, dt).creeps[i].0;
        lemma_filter_holds(f.creeps, |e: (CreepId, Creep)| !dead(e.1), i);
        let p = choose|p: int| 0 <= p < f.creeps.len() && f.creeps[p] == stepped(b, m, v, dt).creeps[i];
        lemma_damage_keeps_keys(m, w.creeps, all.map_values(|a: Aim| shot_of(a)), all.len() as int);
        assert(w.creeps[p].0 == id);
        lemma_filter_holds(moving.creeps, |e: (CreepId, Creep)| !arrived(m, e.1), p);
        let q = choose|q: int| 0 <= q < moving.creeps.len() && moving.creeps[q] == w.creeps[p];
        assert(s.creeps[q].0 == id);
        lemma_next_size(b, m, v);
        if q < v.creeps.len() {
            assert(v.creeps[q].0 == id);
            lemma_place_is(v.creeps, q);
        }
    }
}

proof fn lemma_next_size(b: BalanceView, m: MapView, v: SimView)
    ensures
        next_size(b, m, v) >= 0,
{
    lemma_next_per_lane(b, v);
    let n = next_per_lane(b, v);
    let lanes = m.lanes.len() as int;
    assert(n * lanes >= 0) by (nonlinear_arith)
        requires
            n >= 1,
            lanes >= 0,
    ;
}

/// A kill pays whoever landed the last hit, once, if they are in the match, and
/// nobody else.
pub proof fn law_a_kill_pays_its_killer(players: Seq<(PlayerKey, Player)>, creep: Creep, other: PlayerKey)
    requires
        purse_has_room(players, creep),
        other != creep.last_hit_by,
        holds(players, other),
    ensures
        ({
            let after = credited_one(players, creep);
            let killer = value_of(players, creep.last_hit_by);
            &&& paid(players, creep) ==> value_of(after, creep.last_hit_by) == (Player {
                gold: (killer.gold + creep.bounty) as u32,
                kills: (killer.kills + 1) as u32,
                ..killer
            })
            &&& !paid(players, creep) ==> after == players
            &&& value_of(after, other) == value_of(players, other)
        }),
{
    let killer = value_of(players, creep.last_hit_by);
    lemma_setting(
        players,
        creep.last_hit_by,
        Player { gold: (killer.gold + creep.bounty) as u32, kills: (killer.kills + 1) as u32, ..killer },
        other,
    );
}

/// A column is as wide as the table asks: creeps keep the table's gap where they fit
/// their arc with it, and are never farther apart. One creep alone has the table's
/// gap too.
pub proof fn law_a_column_keeps_its_gap(count: int, gap: Scalar, arc: Scalar)
    requires
        count <= u32::MAX,
        !gap.nan(),
        !arc.nan(),
        !arc.negative(),
    ensures
        at_most(spacing(count, gap, arc), gap),
        count <= 1 ==> spacing(count, gap, arc) == gap,
        count > 1 && at_most(gap, quotient(arc, from_whole(count - 1))) ==> spacing(count, gap, arc) == gap,
        count > 1 ==> at_most(spacing(count, gap, arc), quotient(arc, from_whole(count - 1))),
{
    if count > 1 {
        lemma_whole_positive(count - 1);
        lemma_quotient_not_below(arc, from_whole(count - 1));
    }
}

/// Every creep of a wave draws its own place, in turn: creep `k` is off its slot by
/// draw `k` from the jitter to either side, and the generator has drawn once for
/// each creep when the wave has entered. Without jitter nothing is drawn.
pub proof fn law_each_creep_draws_its_place(b: BalanceView, m: MapView, v: SimView, k: int)
    requires
        0 <= k,
    ensures
        ({
            let j = jitter_of(b, next_per_lane(b, v));
            let draws = wave_started(b, m, v).rng;
            &&& less(negated(j), j) ==> drift(j, v.rng, k) == drawn(
                negated(j),
                j,
                fraction(mixed(state_after(v.rng, (k + 1) as nat))),
            )
            &&& less(negated(j), j) ==> draws == state_after(v.rng, next_size(b, m, v) as nat)
            &&& !less(negated(j), j) ==> draws == v.rng
        }),
{
}

/// A creep's jitter is the table's part of the gap that its column keeps.
pub proof fn law_the_jitter_is_a_part_of_the_gap(b: BalanceView, n: int)
    requires
        good_scaling(b.scaling),
        b.scaling.spawn_gap.finite(),
        1 <= n <= u32::MAX,
    ensures
        at_most(zero(), jitter_of(b, n)),
        at_most(jitter_of(b, n), spacing(n, b.scaling.spawn_gap, b.scaling.spawn_arc)),
        b.scaling.spawn_jitter.zero() ==> jitter_of(b, n).zero(),
{
    let s = b.scaling;
    let gap = spacing(n, s.spawn_gap, s.spawn_arc);
    lemma_spacing(s, n);
    lemma_half();
    lemma_one();
    lemma_value_orders(s.spawn_jitter, half());
    lemma_product_ordered(zero(), s.spawn_jitter, gap);
    lemma_product_ordered(s.spawn_jitter, one(), gap);
    lemma_times_zero(zero(), gap);
    lemma_factors_swap(s.spawn_jitter, gap);
    lemma_factors_swap(one(), gap);
    lemma_times_one(gap);
    if s.spawn_jitter.zero() {
        lemma_times_zero(s.spawn_jitter, gap);
    }
}

/// A column of whole gaps that fits its arc is as long as its gaps together, and one
/// creep, or none, has no length.
pub proof fn law_a_column_is_as_long_as_its_gaps(count: int, gap: int, arc: Scalar)
    requires
        0 <= count <= 0x100_0000,
        0 <= gap <= 0x100_0000,
        count > 1 ==> at_most(from_whole(gap), quotient(arc, from_whole(count - 1))),
        gap * (count - 1) <= 0x100_0000,
        !arc.nan(),
        !arc.negative(),
    ensures
        count > 1 ==> column_extent(count, from_whole(gap), arc) == from_whole(gap * (count - 1)),
        count <= 1 ==> column_extent(count, from_whole(gap), arc).zero(),
{
    lemma_whole_is_exact(gap);
    if count > 1 {
        law_a_column_keeps_its_gap(count, from_whole(gap), arc);
        lemma_whole_product(gap, count - 1);
    } else {
        lemma_from_zero();
        lemma_times_zero(from_whole(0), from_whole(gap));
    }
}

/// Of creeps that are equally close to the goal a tower takes the first: whatever it
/// takes is strictly closer than everything in reach that came before it and has a
/// way to go that is a number.
pub proof fn law_the_first_of_equals_is_shot(
    m: MapView,
    creeps: Seq<(CreepId, Creep)>,
    origin: Vec2,
    range: Scalar,
    n: int,
    other: int,
)
    requires
        0 <= n <= creeps.len(),
        target(m, creeps, origin, range, n) is Some,
        0 <= other < target(m, creeps, origin, range, n)->0,
        in_reach(m, creeps[other].1, origin, range),
        !way_left(m, creeps[other].1).nan(),
    ensures
        less(way_left(m, creeps[target(m, creeps, origin, range, n)->0].1), way_left(m, creeps[other].1)),
    decreases n,
{
    if n > 0 {
        lemma_target_is_in_reach(m, creeps, origin, range, n - 1);
        let best = target(m, creeps, origin, range, n);
        let before = target(m, creeps, origin, range, n - 1);
        if best == before {
            law_the_first_of_equals_is_shot(m, creeps, origin, range, n - 1, other);
        } else {
            law_the_target_is_closest_to_the_goal(m, creeps, origin, range, n - 1, other);
            if other < before->0 {
                law_the_first_of_equals_is_shot(m, creeps, origin, range, n - 1, other);
            }
        }
    }
}

} // verus!
