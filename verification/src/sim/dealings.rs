//! What players may do in a match, what it costs them, and what it brings.

use crate::data::balance::{
    lane_share, lemma_raise_cost, raise_cost, refund, spent, wave_bounty, wave_hp, wave_speed, BalanceView, LoseRule,
};
use crate::data::components::{phase_byte, Phase};
use crate::data::reject::Reject;
use crate::map::{buildable, MapView};
use crate::order::{at_most, less, one, zero};
use crate::scalar::{difference, lemma_plus_zero, lemma_rounds_exactly, lemma_sum_ordered, magnitude, negated, sum, Scalar};
use crate::sim::economy::{built, raised, sold};
use crate::sim::waves::{called, calls_ticked, clock_events, clock_ticked, next_size, view_of, wave_started};
use crate::sim::{connected, joined, left, lobby, rematch, stepped, Player, PlayerKey, SimView, Tower};
use crate::table::{holds, lemma_dropping, lemma_place, lemma_setting, unique, value_of};
use crate::vector::IVec2;
use vstd::prelude::*;

verus! {

// ---------------------------------------------------------------------------
// Towers
// ---------------------------------------------------------------------------

/// Whoever is in a running match and can pay may build on any free cell that may
/// be built on: they pay the tower's price and nothing else, and the tower stands
/// there, theirs, at the first level and ready to shoot.
pub proof fn law_a_build_costs_its_price(b: BalanceView, m: MapView, v: SimView, who: PlayerKey, cell: IVec2, kind: u8)
    requires
        !v.over,
        holds(v.players, who),
        kind < b.towers.len(),
        buildable(m, cell),
        !holds(v.towers, cell),
        value_of(v.players, who).gold >= b.towers[kind as int].cost,
    ensures
        built(b, m, v, who, cell, kind) is Ok,
        ({
            let w = built(b, m, v, who, cell, kind)->Ok_0;
            let before = value_of(v.players, who);
            let after = value_of(w.players, who);
            let tower = value_of(w.towers, cell);
            &&& holds(w.players, who)
            &&& after.gold == before.gold - b.towers[kind as int].cost
            &&& after.kills == before.kills
            &&& after.connected == before.connected
            &&& after.wave_call_cooldown == before.wave_call_cooldown
            &&& holds(w.towers, cell)
            &&& tower.kind == kind
            &&& tower.level == 1
            &&& tower.owner == who
            &&& tower.cooldown.zero()
            &&& w == (SimView { players: w.players, towers: w.towers, ..v })
            &&& w.towers.len() == v.towers.len() + 1
        }),
{
    let player = value_of(v.players, who);
    let cost = b.towers[kind as int].cost;
    lemma_setting(v.players, who, Player { gold: (player.gold - cost) as u32, ..player }, who);
    lemma_setting(v.towers, cell, Tower { kind, level: 1, owner: who, cooldown: zero() }, cell);
}

/// A build that cannot be is refused with the first reason there is: a kind the
/// tables do not have, a cell off the board, a cell on the path, a cell that is
/// taken, or too little gold.
pub proof fn law_a_build_is_refused_with_its_reason(
    b: BalanceView,
    m: MapView,
    v: SimView,
    who: PlayerKey,
    cell: IVec2,
    kind: u8,
)
    requires
        !v.over,
        holds(v.players, who),
    ensures
        ({
            let known = kind < b.towers.len();
            let on_the_board = 0 <= cell.x < m.tiles_x && 0 <= cell.y < m.tiles_y;
            let r = built(b, m, v, who, cell, kind);
            &&& !known ==> r == Err::<SimView, Reject>(Reject::BadKind)
            &&& known && !on_the_board ==> r == Err::<SimView, Reject>(Reject::OutOfBounds)
            &&& known && on_the_board && !buildable(m, cell) ==> r == Err::<SimView, Reject>(Reject::PathBlocked)
            &&& known && buildable(m, cell) && holds(v.towers, cell) ==> r == Err::<SimView, Reject>(Reject::Occupied)
            &&& known && buildable(m, cell) && !holds(v.towers, cell) && value_of(v.players, who).gold
                < b.towers[kind as int].cost ==> r == Err::<SimView, Reject>(Reject::NotEnoughGold)
        }),
{
}

/// An owner who can pay may upgrade a tower of theirs: it goes up one level and
/// stays what and where it is, and they pay the upgrade and nothing else. Too
/// little gold is refused as such, and so is a cell without a tower.
pub proof fn law_an_upgrade_costs_its_price(b: BalanceView, v: SimView, who: PlayerKey, cell: IVec2)
    requires
        !v.over,
        holds(v.players, who),
    ensures
        !holds(v.towers, cell) ==> raised(b, v, who, cell) == Err::<SimView, Reject>(Reject::NoSuchTower),
        ({
            let before = value_of(v.players, who);
            let tower = value_of(v.towers, cell);
            let stats = b.towers[tower.kind as int];
            let mine = holds(v.towers, cell) && tower.owner == who && tower.kind < b.towers.len();
            let cost = raise_cost(stats, tower.level);
            &&& mine && before.gold < cost ==> raised(b, v, who, cell) == Err::<SimView, Reject>(Reject::NotEnoughGold)
            &&& mine && before.gold >= cost && tower.level < u8::MAX ==> {
                &&& raised(b, v, who, cell) is Ok
                &&& ({
                    let w = raised(b, v, who, cell)->Ok_0;
                    let after = value_of(w.players, who);
                    let now = value_of(w.towers, cell);
                    &&& after.gold == before.gold - cost
                    &&& after.kills == before.kills
                    &&& after.connected == before.connected
                    &&& after.wave_call_cooldown == before.wave_call_cooldown
                    &&& now.level == tower.level + 1
                    &&& now.kind == tower.kind
                    &&& now.owner == tower.owner
                    &&& now.cooldown == tower.cooldown
                    &&& w == (SimView { players: w.players, towers: w.towers, ..v })
                    &&& w.towers.len() == v.towers.len()
                })
            }
        }),
{
    let player = value_of(v.players, who);
    let tower = value_of(v.towers, cell);
    let cost = raise_cost(b.towers[tower.kind as int], tower.level);
    lemma_raise_cost(b.towers[tower.kind as int], tower.level);
    lemma_place(v.towers, cell);
    lemma_setting(v.players, who, Player { gold: (player.gold - cost) as u32, ..player }, who);
    lemma_setting(v.towers, cell, Tower { level: (tower.level + 1) as u8, ..tower }, cell);
}

/// An owner may sell a tower at any time, even once the match is over: the tower
/// is gone from its cell, and they get the table's percentage of all that was
/// spent on it.
pub proof fn law_a_sale_pays_its_refund(b: BalanceView, v: SimView, who: PlayerKey, cell: IVec2)
    requires
        unique(v.towers),
        holds(v.players, who),
        holds(v.towers, cell),
        value_of(v.towers, cell).owner == who,
        value_of(v.towers, cell).kind < b.towers.len(),
        ({
            let tower = value_of(v.towers, cell);
            let back = spent(b.towers[tower.kind as int], tower.level) * b.match_rules.sell_refund_percent / 100;
            0 <= back && value_of(v.players, who).gold + back <= u32::MAX
        }),
    ensures
        sold(b, v, who, cell) is Ok,
        ({
            let tower = value_of(v.towers, cell);
            let back = spent(b.towers[tower.kind as int], tower.level) * b.match_rules.sell_refund_percent / 100;
            let w = sold(b, v, who, cell)->Ok_0;
            let before = value_of(v.players, who);
            let after = value_of(w.players, who);
            &&& after.gold == before.gold + back
            &&& after.kills == before.kills
            &&& after.connected == before.connected
            &&& after.wave_call_cooldown == before.wave_call_cooldown
            &&& !holds(w.towers, cell)
            &&& w.towers.len() == v.towers.len() - 1
            &&& w == (SimView { players: w.players, towers: w.towers, ..v })
        }),
{
    let tower = value_of(v.towers, cell);
    let stats = b.towers[tower.kind as int];
    let player = value_of(v.players, who);
    let back = refund(b.match_rules, stats, tower.level);
    assert(back % 0x1_0000_0000 == back);
    lemma_setting(v.players, who, Player { gold: (player.gold + back) as u32, ..player }, who);
    lemma_dropping(v.towers, cell, cell);
    lemma_place(v.towers, cell);
}

// ---------------------------------------------------------------------------
// Calls
// ---------------------------------------------------------------------------

/// A player of a running match whose cooldown has run out may call the next wave:
/// the wave clock stands at zero, their own cooldown starts, and nothing else
/// changes.
pub proof fn law_a_call_zeroes_the_clock(b: BalanceView, v: SimView, who: PlayerKey)
    requires
        !v.over,
        holds(v.players, who),
    ensures
        less(zero(), value_of(v.players, who).wave_call_cooldown) ==> called(b, v, who) == Err::<SimView, Reject>(
            Reject::RateLimited,
        ),
        !less(zero(), value_of(v.players, who).wave_call_cooldown) ==> {
            &&& called(b, v, who) is Ok
            &&& ({
                let w = called(b, v, who)->Ok_0;
                let before = value_of(v.players, who);
                let after = value_of(w.players, who);
                &&& w.wave_timer.zero()
                &&& after.wave_call_cooldown == b.match_rules.call_wave_cooldown
                &&& after.gold == before.gold
                &&& after.kills == before.kills
                &&& after.connected == before.connected
                &&& w == (SimView { players: w.players, wave_timer: w.wave_timer, ..v })
            })
        },
{
    let player = value_of(v.players, who);
    lemma_setting(v.players, who, Player { wave_call_cooldown: b.match_rules.call_wave_cooldown, ..player }, who);
}

/// A cooldown runs down by the time that passes and stops at zero, when its player
/// may call again. The rest of the record is left alone.
pub proof fn law_a_call_cooldown_runs_out(v: SimView, dt: Scalar, i: int)
    requires
        0 <= i < v.players.len(),
        dt.finite(),
        at_most(zero(), dt),
        v.players[i].1.wave_call_cooldown.finite(),
        at_most(zero(), v.players[i].1.wave_call_cooldown),
    ensures
        ({
            let before = v.players[i].1;
            let after = calls_ticked(v, dt).players[i].1;
            &&& calls_ticked(v, dt).players[i].0 == v.players[i].0
            &&& at_most(zero(), after.wave_call_cooldown)
            &&& at_most(after.wave_call_cooldown, before.wave_call_cooldown)
            &&& at_most(before.wave_call_cooldown, dt) ==> after.wave_call_cooldown.zero()
            &&& less(dt, before.wave_call_cooldown) ==> after.wave_call_cooldown == difference(
                before.wave_call_cooldown,
                dt,
            )
            &&& after.gold == before.gold
            &&& after.kills == before.kills
            &&& after.connected == before.connected
        }),
{
    let cd = v.players[i].1.wave_call_cooldown;
    lemma_sum_ordered(cd, negated(dt), zero());
    lemma_plus_zero(cd, zero());
    let none = difference(cd, cd);
    assert(none.zero()) by {
        reveal(sum);
        assert(negated(cd).value() == -cd.value());
        lemma_rounds_exactly(0);
        assert(magnitude(0) == 0);
    }
    if at_most(cd, dt) {
        lemma_sum_ordered(cd, negated(dt), negated(cd));
    } else {
        lemma_sum_ordered(cd, negated(cd), negated(dt));
    }
}

// ---------------------------------------------------------------------------
// Coming and going
// ---------------------------------------------------------------------------

/// A newcomer starts with the table's gold and no kills; somebody who was there
/// before keeps all they had. Either way they are in the match, and whoever else
/// is in it notices nothing. Leaving only marks the record.
pub proof fn law_joining_and_leaving_touch_one_record(b: BalanceView, v: SimView, who: PlayerKey, other: PlayerKey)
    requires
        other != who,
    ensures
        ({
            let w = joined(b, v, who);
            let after = value_of(w.players, who);
            let before = value_of(v.players, who);
            &&& holds(w.players, who)
            &&& after.connected
            &&& !holds(v.players, who) ==> after.gold == b.match_rules.start_gold && after.kills == 0
                && after.wave_call_cooldown.zero()
            &&& holds(v.players, who) ==> after.gold == before.gold && after.kills == before.kills
                && after.wave_call_cooldown == before.wave_call_cooldown
            &&& holds(w.players, other) == holds(v.players, other)
            &&& holds(v.players, other) ==> value_of(w.players, other) == value_of(v.players, other)
            &&& w == (SimView { players: w.players, ..v })
        }),
        ({
            let w = left(v, who);
            let after = value_of(w.players, who);
            let before = value_of(v.players, who);
            &&& holds(w.players, who) == holds(v.players, who)
            &&& holds(v.players, who) ==> !after.connected && after.gold == before.gold && after.kills == before.kills
                && after.wave_call_cooldown == before.wave_call_cooldown
            &&& holds(w.players, other) == holds(v.players, other)
            &&& holds(v.players, other) ==> value_of(w.players, other) == value_of(v.players, other)
            &&& w == (SimView { players: w.players, ..v })
        }),
{
    let back = Player { connected: true, ..value_of(v.players, who) };
    let new = Player { gold: b.match_rules.start_gold, kills: 0, connected: true, wave_call_cooldown: zero() };
    let gone = Player { connected: false, ..value_of(v.players, who) };
    lemma_setting(v.players, who, back, other);
    lemma_setting(v.players, who, new, other);
    lemma_setting(v.players, who, gone, other);
}

/// A rematch clears the board and deals every player in again: no creep, tower,
/// leak or wave is left, the lives and the first delay are the table's, and each
/// player has the starting gold, no kills and no cooldown, and is as much there as
/// before.
pub proof fn law_a_rematch_deals_everyone_in(b: BalanceView, v: SimView, i: int)
    requires
        0 <= i < v.players.len(),
    ensures
        ({
            let w = rematch(b, v);
            &&& w.creeps.len() == 0
            &&& w.towers.len() == 0
            &&& w.wave == 0
            &&& w.leaks == 0
            &&& w.lives == b.match_rules.starting_lives
            &&& w.wave_timer == b.match_rules.first_wave_delay
            &&& w.rng == v.seed
            &&& w.seed == v.seed
            &&& w.players.len() == v.players.len()
            &&& w.players[i].0 == v.players[i].0
            &&& w.players[i].1.gold == b.match_rules.start_gold
            &&& w.players[i].1.kills == 0
            &&& w.players[i].1.connected == v.players[i].1.connected
            &&& w.players[i].1.wave_call_cooldown.zero()
        }),
{
}

/// The lobby is as many players as are connected.
pub proof fn law_the_lobby_is_who_is_connected(v: SimView)
    requires
        v.players.len() <= u32::MAX,
    ensures
        lobby(v) == v.players.filter(|e: (PlayerKey, Player)| e.1.connected).len(),
{
    lemma_connected(v.players);
    let there = |e: (PlayerKey, Player)| e.1.connected;
    v.players.lemma_filter_len(there);
}

proof fn lemma_connected(players: Seq<(PlayerKey, Player)>)
    ensures
        connected(players, players.len() as int) == players.filter(|e: (PlayerKey, Player)| e.1.connected).len(),
    decreases players.len(),
{
    reveal(Seq::filter);
    if players.len() > 0 {
        let front = players.drop_last();
        lemma_connected(front);
        lemma_connected_so_far(players, front, front.len() as int);
    }
}

proof fn lemma_connected_so_far(a: Seq<(PlayerKey, Player)>, b: Seq<(PlayerKey, Player)>, n: int)
    requires
        0 <= n <= a.len(),
        n <= b.len(),
        forall|i: int| 0 <= i < n ==> a[i] == b[i],
    ensures
        connected(a, n) == connected(b, n),
    decreases n,
{
    if n > 0 {
        lemma_connected_so_far(a, b, n - 1);
    }
}

// ---------------------------------------------------------------------------
// Waves
// ---------------------------------------------------------------------------

/// The wave clock runs down by the time that passes. While it has time left no
/// wave starts and nobody enters; when it runs out the next wave does, is
/// announced with its number, and the clock starts over at the table's interval.
pub proof fn law_the_wave_clock_starts_waves(b: BalanceView, m: MapView, v: SimView, dt: Scalar)
    requires
        0 <= v.wave < u32::MAX,
    ensures
        ({
            let left = difference(v.wave_timer, dt);
            let w = clock_ticked(b, m, v, dt);
            let events = clock_events(b, m, v, dt);
            &&& less(zero(), left) ==> {
                &&& w.wave == v.wave
                &&& w.wave_timer == left
                &&& w.creeps == v.creeps
                &&& w.next_id == v.next_id
                &&& w.rng == v.rng
                &&& events.len() == 0
            }
            &&& !less(zero(), left) ==> {
                &&& w.wave == v.wave + 1
                &&& w.wave_timer == b.match_rules.wave_interval
                &&& events.len() > 0
                &&& events[0] is WaveStarted
                &&& events[0]->WaveStarted_0 == v.wave + 1
            }
            &&& w.players == v.players
            &&& w.towers == v.towers
            &&& w.lives == v.lives
            &&& w.leaks == v.leaks
        }),
{
}

/// Every creep of a wave enters whole, at its wave's strength: full health of the
/// wave's amount, the wave's speed and bounty, not slowed and hit by nobody, under
/// the next id; and as many enter as the wave sends per lane to this lobby, on
/// every lane. The creeps that were there stay as they were.
pub proof fn law_a_wave_enters_at_its_strength(b: BalanceView, m: MapView, v: SimView, k: int)
    requires
        0 <= v.wave < u32::MAX,
        0 <= k < next_size(b, m, v),
        0 <= v.next_id,
        v.next_id + next_size(b, m, v) <= u32::MAX,
        0 <= wave_bounty(b.scaling, (v.wave + 1) as u32) <= u32::MAX,
    ensures
        ({
            let w = wave_started(b, m, v);
            let wave = (v.wave + 1) as u32;
            let old_ones = v.creeps.len();
            let (id, creep) = w.creeps[old_ones + k];
            &&& w.creeps.len() == old_ones + lane_share(b.scaling, wave, lobby(v)) * m.lanes.len()
            &&& w.creeps.take(old_ones as int) == v.creeps
            &&& id.0 == v.next_id + k
            &&& creep.hp == wave_hp(b.scaling, wave)
            &&& creep.max_hp == creep.hp
            &&& creep.base_speed == wave_speed(b.scaling, wave)
            &&& creep.bounty == wave_bounty(b.scaling, wave)
            &&& creep.slow_mult == one()
            &&& !less(zero(), creep.slow_timer)
            &&& creep.last_hit_by == PlayerKey(0)
        }),
{
    let w = wave_started(b, m, v);
    assert(w.creeps.take(v.creeps.len() as int) =~= v.creeps);
}

// ---------------------------------------------------------------------------
// The end, and what is shown
// ---------------------------------------------------------------------------

/// A match ends when its lives are spent, where it is played for lives, and when
/// more creeps are alive than the cap allows, where it is played for room; and by
/// nothing else.
pub proof fn law_a_match_ends_by_its_rule(b: BalanceView, m: MapView, v: SimView, dt: Scalar)
    requires
        !v.over,
        stepped(b, m, v, dt).creeps.len() <= u32::MAX,
    ensures
        ({
            let w = stepped(b, m, v, dt);
            &&& b.match_rules.lose_rule == LoseRule::Lives ==> w.over == (w.lives == 0)
            &&& b.match_rules.lose_rule == LoseRule::Overrun ==> w.over == (w.creeps.len() > b.match_rules.overrun_cap)
        }),
{
}

/// What is shown of a match is so: its wave, its creeps, its cap, its lives and
/// leaks, who is in it, and whether it is waiting, on, or over.
pub proof fn law_the_match_is_shown_as_it_is(b: BalanceView, m: MapView, v: SimView)
    requires
        0 <= v.wave <= u32::MAX,
        0 <= v.lives <= u32::MAX,
        0 <= v.leaks <= u32::MAX,
        v.creeps.len() <= u32::MAX,
        v.players.len() <= u32::MAX,
        m.lanes.len() <= u32::MAX,
        0 <= lane_share(b.scaling, v.wave as u32, lobby(v)) * m.lanes.len() <= u32::MAX,
    ensures
        ({
            let shown = view_of(b, m, v);
            &&& shown.wave == v.wave
            &&& shown.live_creeps == v.creeps.len()
            &&& shown.overrun_cap == b.match_rules.overrun_cap
            &&& shown.creeps_per_wave == lane_share(b.scaling, v.wave as u32, lobby(v)) * m.lanes.len()
            &&& shown.lives == v.lives
            &&& shown.leaks == v.leaks
            &&& shown.players == v.players.filter(|e: (PlayerKey, Player)| e.1.connected).len()
            &&& shown.phase == phase_byte(
                if v.over {
                    Phase::Over
                } else if v.wave > 0 {
                    Phase::InMatch
                } else {
                    Phase::Waiting
                },
            )
        }),
{
    law_the_lobby_is_who_is_connected(v);
}

} // verus!
