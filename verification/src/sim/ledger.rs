//! Where the creeps of a match come from, and where they go.

use crate::data::balance::BalanceView;
use crate::map::{length, MapView};
use crate::order::{less, zero};
use crate::scalar::Scalar;
use crate::sim::combat::{
    aims, arrived, at_the_goal, before_fire, damaged, dead, fallen, fight_events, fought, kill_events, leak_events, lemma_filtered,
    lemma_same_keys, living, marched, shot_of, still_walking, Aim, Shot,
};
use crate::sim::laws::lemma_filter_holds;
use crate::sim::waves::{
    arrivals, clock_events, column, lemma_next_per_lane, lemma_spawned_is_good, next_per_lane, next_size, spawned,
    wave_due,
};
use crate::sim::{good, lane_at, step_events, step_has_room, stepped, Creep, CreepId, SimEvent, SimView};
use crate::table::{holds, lemma_place, lemma_place_is, place_of, unique, value_of};
use vstd::prelude::*;

verus! {

/// The creeps on the board, by id.
pub open spec fn on_the_board(v: SimView) -> Set<CreepId> {
    Set::new(|id: CreepId| holds(v.creeps, id))
}

/// The creeps that a list of announcements says entered.
pub open spec fn entered(events: Seq<SimEvent>) -> Set<CreepId> {
    Set::new(|id: CreepId| events.contains(SimEvent::CreepSpawned(id)))
}

/// The creeps that a list of announcements says were killed.
pub open spec fn killed(events: Seq<SimEvent>) -> Set<CreepId> {
    Set::new(|id: CreepId| events.contains(SimEvent::CreepKilled(id)))
}

/// The creeps that a list of announcements says reached the goal.
pub open spec fn escaped(events: Seq<SimEvent>) -> Set<CreepId> {
    Set::new(|id: CreepId| events.contains(SimEvent::Leaked(id)))
}

/// The announcement is about one creep.
pub open spec fn names_a_creep(event: SimEvent) -> bool {
    event is CreepSpawned || event is CreepKilled || event is Leaked
}

/// Every creep is accounted for. The creeps on the board after a tick are those
/// that were there and those that entered, less the killed and the escaped; each
/// of these is announced once, an id that enters is new, and nobody is killed and
/// escapes at once.
pub proof fn law_every_creep_is_accounted_for(b: BalanceView, m: MapView, v: SimView, dt: Scalar)
    requires
        good(v),
        step_has_room(b, m, v, dt),
    ensures
        ({
            let w = stepped(b, m, v, dt);
            let events = step_events(b, m, v, dt);
            &&& on_the_board(w) == on_the_board(v).union(entered(events)).difference(killed(events)).difference(escaped(events))
            &&& entered(events).disjoint(on_the_board(v))
            &&& killed(events).disjoint(escaped(events))
            &&& killed(events).subset_of(on_the_board(v).union(entered(events)))
            &&& escaped(events).subset_of(on_the_board(v).union(entered(events)))
            &&& forall|i: int, j: int|
                0 <= i < j < events.len() && names_a_creep(#[trigger] events[i]) ==> events[i] != #[trigger] events[j]
        }),
{
    let w = stepped(b, m, v, dt);
    let events = step_events(b, m, v, dt);
    if v.over {
        assert(on_the_board(w) =~= on_the_board(v).union(entered(events)).difference(killed(events)).difference(escaped(events)));
    } else {
        assert forall|id: CreepId| on_the_board(w).contains(id) == on_the_board(v).union(entered(events)).difference(
            killed(events),
        ).difference(escaped(events)).contains(id) by {
            lemma_announced(b, m, v, dt, id);
            lemma_one_creep(b, m, v, dt, id);
        }
        assert(on_the_board(w) =~= on_the_board(v).union(entered(events)).difference(killed(events)).difference(escaped(events)));
        assert forall|id: CreepId| !(entered(events).contains(id) && on_the_board(v).contains(id)) by {
            lemma_announced(b, m, v, dt, id);
            lemma_one_creep(b, m, v, dt, id);
        }
        assert forall|id: CreepId| !(killed(events).contains(id) && escaped(events).contains(id)) by {
            lemma_announced(b, m, v, dt, id);
            lemma_one_creep(b, m, v, dt, id);
        }
        assert forall|id: CreepId|
            killed(events).contains(id) || escaped(events).contains(id) implies on_the_board(v).union(entered(events)).contains(
            id,
        ) by {
            lemma_announced(b, m, v, dt, id);
            lemma_one_creep(b, m, v, dt, id);
        }
        lemma_announced_once(b, m, v, dt);
    }
}

/// Every creep left on the board is alive, and has not reached the end of its
/// lane. A number is "not a number" only where a table's curve ran into infinity;
/// nothing is said of those.
pub proof fn law_the_board_holds_walking_creeps(b: BalanceView, m: MapView, v: SimView, dt: Scalar, i: int)
    requires
        !v.over,
        0 <= i < stepped(b, m, v, dt).creeps.len(),
    ensures
        ({
            let creep = stepped(b, m, v, dt).creeps[i].1;
            let end = length(lane_at(m, creep.lane).points);
            &&& !creep.hp.nan() ==> less(zero(), creep.hp)
            &&& !creep.dist.nan() && !end.nan() ==> less(creep.dist, end)
        }),
{
    let s = spawned(b, m, v, dt);
    let moving = marched(s, dt);
    let w = before_fire(b, m, s, dt);
    let all = aims(b, m, w, dt, w.towers.len() as int);
    let f = fought(b, m, w, dt);
    lemma_filter_holds(f.creeps, |e: (CreepId, Creep)| !dead(e.1), i);
    let p = choose|p: int| 0 <= p < f.creeps.len() && f.creeps[p] == living(f.creeps)[i];
    lemma_damage_keeps_places(m, w.creeps, all.map_values(|a: Aim| shot_of(a)), all.len() as int);
    assert(f.creeps[p].1.dist == w.creeps[p].1.dist && f.creeps[p].1.lane == w.creeps[p].1.lane);
    lemma_filter_holds(moving.creeps, |e: (CreepId, Creep)| !arrived(m, e.1), p);
}

// ---------------------------------------------------------------------------
// The stages of a tick
// ---------------------------------------------------------------------------

/// The id is one that the wave of this tick hands out.
spec fn new_id(b: BalanceView, m: MapView, v: SimView, dt: Scalar, id: CreepId) -> bool {
    wave_due(v, dt) && v.next_id <= id.0 < v.next_id + next_size(b, m, v)
}

proof fn lemma_is_kept<A>(s: Seq<A>, keep: spec_fn(A) -> bool, i: int)
    requires
        0 <= i < s.len(),
        keep(s[i]),
    ensures
        s.filter(keep).contains(s[i]),
    decreases s.len(),
{
    reveal(Seq::filter);
    let front = s.drop_last();
    let out = s.filter(keep);
    if i < front.len() {
        lemma_is_kept(front, keep, i);
        let part = front.filter(keep);
        let k = choose|k: int| 0 <= k < part.len() && part[k] == front[i];
        assert(out[k] == s[i]);
    } else {
        assert(out[out.len() - 1] == s[i]);
    }
}

/// A key is kept where its entry is.
proof fn lemma_kept_key(s: Seq<(CreepId, Creep)>, keep: spec_fn((CreepId, Creep)) -> bool, id: CreepId)
    requires
        unique(s),
    ensures
        holds(s.filter(keep), id) <==> holds(s, id) && keep((id, value_of(s, id))),
{
    let out = s.filter(keep);
    lemma_filtered(s, keep);
    lemma_place(s, id);
    lemma_place(out, id);
    if holds(s, id) && keep((id, value_of(s, id))) {
        let p = place_of(s, id);
        assert(s[p] == (id, value_of(s, id)));
        lemma_is_kept(s, keep, p);
        let k = choose|k: int| 0 <= k < out.len() && out[k] == s[p];
        lemma_place_is(out, k);
    }
    if holds(out, id) {
        let q = place_of(out, id);
        lemma_filter_holds(s, keep, q);
        let k = choose|k: int| 0 <= k < s.len() && s[k] == out[q];
        lemma_place_is(s, k);
    }
}

/// Tables with the same keys at the same places hold the same keys.
proof fn lemma_like_keys(s: Seq<(CreepId, Creep)>, t: Seq<(CreepId, Creep)>, id: CreepId)
    requires
        unique(s),
        unique(t),
        s.len() == t.len(),
        forall|i: int| 0 <= i < s.len() ==> (#[trigger] s[i]).0 == t[i].0,
    ensures
        holds(s, id) == holds(t, id),
{
    lemma_place(s, id);
    lemma_place(t, id);
    if holds(s, id) {
        lemma_place_is(t, place_of(s, id));
    }
    if holds(t, id) {
        let p = place_of(t, id);
        assert(s[p].0 == t[p].0);
        lemma_place_is(s, p);
    }
}

proof fn lemma_damage_keeps_places(m: MapView, creeps: Seq<(CreepId, Creep)>, shots: Seq<Shot>, n: int)
    requires
        0 <= n <= shots.len(),
    ensures
        damaged(m, creeps, shots, n).len() == creeps.len(),
        forall|i: int|
            0 <= i < creeps.len() ==> {
                let after = #[trigger] damaged(m, creeps, shots, n)[i];
                after.0 == creeps[i].0 && after.1.dist == creeps[i].1.dist && after.1.lane == creeps[i].1.lane
            },
    decreases n,
{
    if n > 0 {
        lemma_damage_keeps_places(m, creeps, shots, n - 1);
        let before = damaged(m, creeps, shots, n - 1);
        let after = damaged(m, creeps, shots, n);
        assert forall|i: int| 0 <= i < creeps.len() implies {
            let hit = #[trigger] after[i];
            hit.0 == creeps[i].0 && hit.1.dist == creeps[i].1.dist && hit.1.lane == creeps[i].1.lane
        } by {
            assert(before[i].0 == creeps[i].0);
        }
    }
}

/// At every stage of a tick each creep is there once.
proof fn lemma_stages(b: BalanceView, m: MapView, v: SimView, dt: Scalar)
    requires
        good(v),
        !v.over,
        step_has_room(b, m, v, dt),
    ensures
        ({
            let s = spawned(b, m, v, dt);
            let moving = marched(s, dt);
            let aimed = before_fire(b, m, s, dt);
            let shot = fought(b, m, aimed, dt);
            &&& good(s)
            &&& unique(moving.creeps)
            &&& unique(aimed.creeps)
            &&& unique(shot.creeps)
            &&& unique(at_the_goal(m, moving.creeps))
            &&& unique(fallen(shot.creeps))
        }),
{
    let s = spawned(b, m, v, dt);
    let moving = marched(s, dt);
    let aimed = before_fire(b, m, s, dt);
    let shot = fought(b, m, aimed, dt);
    lemma_spawned_is_good(b, m, v, dt);
    lemma_same_keys(s, moving.creeps);
    lemma_filtered(moving.creeps, |e: (CreepId, Creep)| !arrived(m, e.1));
    lemma_filtered(moving.creeps, |e: (CreepId, Creep)| arrived(m, e.1));
    let all = aims(b, m, aimed, dt, aimed.towers.len() as int);
    lemma_damage_keeps_places(m, aimed.creeps, all.map_values(|a: Aim| shot_of(a)), all.len() as int);
    assert forall|i: int, j: int| 0 <= i < j < shot.creeps.len() implies (#[trigger] shot.creeps[i]).0 != (
    #[trigger] shot.creeps[j]).0 by {
        assert(aimed.creeps[i].0 != aimed.creeps[j].0);
    }
    lemma_filtered(shot.creeps, |e: (CreepId, Creep)| dead(e.1));
}

/// What becomes of one creep in a tick.
proof fn lemma_one_creep(b: BalanceView, m: MapView, v: SimView, dt: Scalar, id: CreepId)
    requires
        good(v),
        !v.over,
        step_has_room(b, m, v, dt),
    ensures
        ({
            let moving = marched(spawned(b, m, v, dt), dt);
            let shot = fought(b, m, before_fire(b, m, spawned(b, m, v, dt), dt), dt);
            let there = holds(v.creeps, id) || new_id(b, m, v, dt, id);
            let leaks = holds(at_the_goal(m, moving.creeps), id);
            let dies = holds(fallen(shot.creeps), id);
            &&& new_id(b, m, v, dt, id) ==> !holds(v.creeps, id)
            &&& leaks ==> there
            &&& dies ==> there && !leaks
            &&& holds(stepped(b, m, v, dt).creeps, id) <==> there && !leaks && !dies
        }),
{
    lemma_stages(b, m, v, dt);
    let s = spawned(b, m, v, dt);
    let moving = marched(s, dt);
    let aimed = before_fire(b, m, s, dt);
    let shot = fought(b, m, aimed, dt);
    // Those that were there, and those that entered.
    lemma_place(v.creeps, id);
    lemma_place(s.creeps, id);
    let size = next_size(b, m, v);
    if holds(v.creeps, id) {
        let p = place_of(v.creeps, id);
        assert(v.creeps[p].0.0 < v.next_id);
        assert(s.creeps[p] == v.creeps[p]);
        lemma_place_is(s.creeps, p);
    }
    if wave_due(v, dt) {
        lemma_next_per_lane(b, v);
        let n = next_per_lane(b, v);
        let lanes = m.lanes.len() as int;
        assert(size >= 0) by (nonlinear_arith)
            requires
                size == n * lanes,
                n >= 1,
                lanes >= 0,
        ;
        let more = column(b, (v.wave + 1) as u32, n, v.rng, v.next_id, size);
        assert(s.creeps == v.creeps + more);
        if new_id(b, m, v, dt, id) {
            let k = id.0 - v.next_id;
            assert(s.creeps[v.creeps.len() + k] == more[k]);
            lemma_place_is(s.creeps, v.creeps.len() + k);
        }
        if holds(s.creeps, id) {
            let p = place_of(s.creeps, id);
            if p < v.creeps.len() {
                assert(s.creeps[p] == v.creeps[p]);
                lemma_place_is(v.creeps, p);
            } else {
                assert(s.creeps[p] == more[p - v.creeps.len()]);
            }
        }
    } else {
        assert(s.creeps == v.creeps);
    }
    // Those that arrive leave, and those that die.
    lemma_like_keys(s.creeps, moving.creeps, id);
    lemma_kept_key(moving.creeps, |e: (CreepId, Creep)| !arrived(m, e.1), id);
    lemma_kept_key(moving.creeps, |e: (CreepId, Creep)| arrived(m, e.1), id);
    assert(aimed.creeps == still_walking(m, moving.creeps));
    let all = aims(b, m, aimed, dt, aimed.towers.len() as int);
    lemma_damage_keeps_places(m, aimed.creeps, all.map_values(|a: Aim| shot_of(a)), all.len() as int);
    assert forall|i: int| 0 <= i < aimed.creeps.len() implies (#[trigger] aimed.creeps[i]).0 == shot.creeps[i].0 by {
        assert(shot.creeps[i].0 == aimed.creeps[i].0);
    }
    lemma_like_keys(aimed.creeps, shot.creeps, id);
    lemma_kept_key(shot.creeps, |e: (CreepId, Creep)| dead(e.1), id);
    lemma_kept_key(shot.creeps, |e: (CreepId, Creep)| !dead(e.1), id);
    assert(stepped(b, m, v, dt).creeps == living(shot.creeps));
}

// ---------------------------------------------------------------------------
// The announcements of a tick
// ---------------------------------------------------------------------------

/// The announcements of a tick come in parts: the wave, the leaks, the kills, and
/// the end.
proof fn lemma_parts(b: BalanceView, m: MapView, v: SimView, dt: Scalar, q: int)
    requires
        !v.over,
        0 <= q < step_events(b, m, v, dt).len(),
    ensures
        ({
            let event = step_events(b, m, v, dt)[q];
            let s = spawned(b, m, v, dt);
            let shot = fought(b, m, before_fire(b, m, s, dt), dt);
            let goal = at_the_goal(m, marched(s, dt).creeps);
            let gone = fallen(shot.creeps);
            let size = if wave_due(v, dt) { 1 + arrivals(v.next_id, next_size(b, m, v)).len() } else { 0 };
            if q < size {
                if q == 0 {
                    event == SimEvent::WaveStarted((v.wave + 1) as u32)
                } else {
                    event == SimEvent::CreepSpawned(CreepId((v.next_id + q - 1) as u32))
                }
            } else if q < size + goal.len() {
                event == SimEvent::Leaked(goal[q - size].0)
            } else if q < size + goal.len() + gone.len() {
                event == SimEvent::CreepKilled(gone[q - size - goal.len()].0)
            } else {
                event == SimEvent::GameOver
            }
        }),
        step_events(b, m, v, dt).len() >= (if wave_due(v, dt) {
            1 + arrivals(v.next_id, next_size(b, m, v)).len()
        } else {
            0
        }) + at_the_goal(m, marched(spawned(b, m, v, dt), dt).creeps).len() + fallen(
            fought(b, m, before_fire(b, m, spawned(b, m, v, dt), dt), dt).creeps,
        ).len(),
{
    let events = step_events(b, m, v, dt);
    let s = spawned(b, m, v, dt);
    let shot = fought(b, m, before_fire(b, m, s, dt), dt);
    let wave = clock_events(b, m, v, dt);
    let leaks = leak_events(m, marched(s, dt));
    let kills = kill_events(shot);
    let fight = wave + (leaks + kills);
    assert(fight_events(b, m, s, dt) == leaks + kills);
    assert(q < fight.len() ==> events[q] == fight[q]);
    if q < wave.len() {
        if q > 0 {
            assert(wave[q] == arrivals(v.next_id, next_size(b, m, v))[q - 1]);
        }
    } else if q < wave.len() + leaks.len() {
        assert(fight[q] == leaks[q - wave.len()]);
    } else if q < fight.len() {
        assert(fight[q] == kills[q - wave.len() - leaks.len()]);
    }
}

/// A tick announces of a creep exactly what becomes of it.
proof fn lemma_announced(b: BalanceView, m: MapView, v: SimView, dt: Scalar, id: CreepId)
    requires
        good(v),
        !v.over,
        step_has_room(b, m, v, dt),
    ensures
        ({
            let events = step_events(b, m, v, dt);
            let s = spawned(b, m, v, dt);
            let shot = fought(b, m, before_fire(b, m, s, dt), dt);
            &&& events.contains(SimEvent::CreepSpawned(id)) <==> new_id(b, m, v, dt, id)
            &&& events.contains(SimEvent::Leaked(id)) <==> holds(at_the_goal(m, marched(s, dt).creeps), id)
            &&& events.contains(SimEvent::CreepKilled(id)) <==> holds(fallen(shot.creeps), id)
        }),
{
    lemma_stages(b, m, v, dt);
    let events = step_events(b, m, v, dt);
    let s = spawned(b, m, v, dt);
    let shot = fought(b, m, before_fire(b, m, s, dt), dt);
    let goal = at_the_goal(m, marched(s, dt).creeps);
    let gone = fallen(shot.creeps);
    let wave = clock_events(b, m, v, dt);
    let leaks = leak_events(m, marched(s, dt));
    let kills = kill_events(shot);
    let fight = wave + (leaks + kills);
    assert(fight_events(b, m, s, dt) == leaks + kills);
    assert forall|q: int| 0 <= q < fight.len() implies events[q] == #[trigger] fight[q] by {}
    lemma_next_per_lane(b, v);
    let n = next_per_lane(b, v);
    let lanes = m.lanes.len() as int;
    let size = next_size(b, m, v);
    assert(size >= 0) by (nonlinear_arith)
        requires
            size == n * lanes,
            n >= 1,
            lanes >= 0,
    ;
    lemma_place(goal, id);
    lemma_place(gone, id);
    if new_id(b, m, v, dt, id) {
        let q = 1 + id.0 - v.next_id;
        assert(wave[q] == arrivals(v.next_id, size)[q - 1]);
        assert(events[q] == fight[q]);
        assert(events[q] == SimEvent::CreepSpawned(id));
    }
    if holds(goal, id) {
        let q = wave.len() + place_of(goal, id);
        assert(fight[q] == leaks[place_of(goal, id)]);
        assert(events[q] == SimEvent::Leaked(id));
    }
    if holds(gone, id) {
        let q = wave.len() + leaks.len() + place_of(gone, id);
        assert(fight[q] == kills[place_of(gone, id)]);
        assert(events[q] == SimEvent::CreepKilled(id));
    }
    if events.contains(SimEvent::CreepSpawned(id)) {
        let q = choose|q: int| 0 <= q < events.len() && events[q] == SimEvent::CreepSpawned(id);
        lemma_parts(b, m, v, dt, q);
    }
    if events.contains(SimEvent::Leaked(id)) {
        let q = choose|q: int| 0 <= q < events.len() && events[q] == SimEvent::Leaked(id);
        lemma_parts(b, m, v, dt, q);
        lemma_place_is(goal, q - wave.len());
    }
    if events.contains(SimEvent::CreepKilled(id)) {
        let q = choose|q: int| 0 <= q < events.len() && events[q] == SimEvent::CreepKilled(id);
        lemma_parts(b, m, v, dt, q);
        lemma_place_is(gone, q - wave.len() - leaks.len());
    }
}

/// A tick announces nothing of a creep twice.
proof fn lemma_announced_once(b: BalanceView, m: MapView, v: SimView, dt: Scalar)
    requires
        good(v),
        !v.over,
        step_has_room(b, m, v, dt),
    ensures
        forall|i: int, j: int|
            0 <= i < j < step_events(b, m, v, dt).len() && names_a_creep(#[trigger] step_events(b, m, v, dt)[i])
                ==> step_events(b, m, v, dt)[i] != #[trigger] step_events(b, m, v, dt)[j],
{
    lemma_stages(b, m, v, dt);
    let events = step_events(b, m, v, dt);
    let s = spawned(b, m, v, dt);
    let shot = fought(b, m, before_fire(b, m, s, dt), dt);
    let goal = at_the_goal(m, marched(s, dt).creeps);
    let gone = fallen(shot.creeps);
    let wave = clock_events(b, m, v, dt);
    lemma_next_per_lane(b, v);
    let n = next_per_lane(b, v);
    let lanes = m.lanes.len() as int;
    let size = next_size(b, m, v);
    assert(size >= 0) by (nonlinear_arith)
        requires
            size == n * lanes,
            n >= 1,
            lanes >= 0,
    ;
    assert forall|i: int, j: int|
        0 <= i < j < events.len() && names_a_creep(#[trigger] events[i]) implies events[i] != #[trigger] events[j] by {
        lemma_parts(b, m, v, dt, i);
        lemma_parts(b, m, v, dt, j);
        let w = wave.len();
        if w <= i && j < w + goal.len() {
            assert(goal[i - w].0 != goal[j - w].0);
        }
        let k = w + goal.len();
        if k <= i && j < k + gone.len() {
            assert(gone[i - k].0 != gone[j - k].0);
        }
    }
}

} // verus!
