//! Creep movement, leaks, and tower fire: everything one tick does to a creep.
//!
//! The phases that live here, in order: the creeps that exist move, the creeps
//! that arrived at the goal leak (before anything may shoot them), the towers
//! that are off cooldown acquire a target, the aiming towers fire, the shots
//! resolve, and the dead are reaped and paid for.
//!
//! Firing is three passes rather than one, because the order is a contract:
//! acquiring picks a target, firing commits to the shot and spends the cooldown,
//! and damage resolves what was fired.

use crate::data::balance::{tiers, BalanceView, LoseRule};
use crate::map::{cell_centre, length, MapView};
use crate::order::{at_most, less, one, smaller, zero};
use crate::scalar::{difference, from_whole, product, quotient, sum, Scalar};
use crate::sim::economy::{credited, credit_has_room};
use crate::sim::{
    creep_position, good, lane_at, lane_of, pace, way_left, Creep, CreepId, Player, PlayerKey, Sim, SimEvent, SimView,
    Tower,
};
use crate::table::{holds, lemma_place, setting, unique, value_of, Table};
use crate::vector::{gap, IVec2, Vec2};
use vstd::prelude::*;

verus! {

// ---------------------------------------------------------------------------
// Movement
// ---------------------------------------------------------------------------

/// A creep after `dt`: its slow timer runs down, then it walks.
pub open spec fn moved(creep: Creep, dt: Scalar) -> Creep {
    let timed = Creep {
        slow_timer: if less(zero(), creep.slow_timer) {
            difference(creep.slow_timer, dt)
        } else {
            creep.slow_timer
        },
        ..creep
    };
    Creep { dist: sum(creep.dist, product(product(creep.base_speed, pace(timed)), dt)), ..timed }
}

/// The state after every creep moved.
pub open spec fn marched(v: SimView, dt: Scalar) -> SimView {
    SimView { creeps: v.creeps.map_values(|e: (CreepId, Creep)| (e.0, moved(e.1, dt))), ..v }
}

// ---------------------------------------------------------------------------
// Leaks
// ---------------------------------------------------------------------------

/// The creep has walked its whole lane.
pub open spec fn arrived(m: MapView, creep: Creep) -> bool {
    at_most(length(lane_at(m, creep.lane).points), creep.dist)
}

/// The creeps that have not arrived.
pub open spec fn still_walking(m: MapView, creeps: Seq<(CreepId, Creep)>) -> Seq<(CreepId, Creep)> {
    creeps.filter(|e: (CreepId, Creep)| !arrived(m, e.1))
}

/// The creeps that have arrived.
pub open spec fn at_the_goal(m: MapView, creeps: Seq<(CreepId, Creep)>) -> Seq<(CreepId, Creep)> {
    creeps.filter(|e: (CreepId, Creep)| arrived(m, e.1))
}

/// The lives left after `leaks` creeps reached the goal: each costs one, as long
/// as there are any, and only where lives are what the match is played for.
pub open spec fn lives_after(rule: LoseRule, lives: int, leaks: int) -> int {
    if rule == LoseRule::Overrun {
        lives
    } else if lives > leaks {
        lives - leaks
    } else {
        0
    }
}

/// The state after the creeps that arrived left the match.
pub open spec fn leaked(b: BalanceView, m: MapView, v: SimView) -> SimView {
    let gone = at_the_goal(m, v.creeps).len();
    SimView {
        creeps: still_walking(m, v.creeps),
        leaks: v.leaks + gone,
        lives: lives_after(b.match_rules.lose_rule, v.lives, gone as int),
        ..v
    }
}

/// What is announced of the creeps that arrived.
pub open spec fn leak_events(m: MapView, v: SimView) -> Seq<SimEvent> {
    at_the_goal(m, v.creeps).map_values(|e: (CreepId, Creep)| SimEvent::Leaked(e.0))
}

/// The leak counter has room.
pub open spec fn leak_has_room(m: MapView, v: SimView) -> bool {
    v.leaks + at_the_goal(m, v.creeps).len() <= u32::MAX
}

// ---------------------------------------------------------------------------
// Targets
// ---------------------------------------------------------------------------

/// A tower may shoot at a creep: it lives, and is within range.
pub open spec fn in_reach(m: MapView, creep: Creep, origin: Vec2, range: Scalar) -> bool {
    !at_most(creep.hp, zero()) && at_most(gap(creep_position(m, creep), origin), range)
}

/// Among the first `n` creeps, the one in reach that is closest to the goal; the
/// first of those where several are equally close.
pub open spec fn target(m: MapView, creeps: Seq<(CreepId, Creep)>, origin: Vec2, range: Scalar, n: int) -> Option<int>
    decreases n,
{
    if n <= 0 {
        None
    } else {
        let best = target(m, creeps, origin, range, n - 1);
        let creep = creeps[n - 1].1;
        if in_reach(m, creep, origin, range) && (best is None || less(
            way_left(m, creep),
            way_left(m, creeps[best->0].1),
        )) {
            Some(n - 1)
        } else {
            best
        }
    }
}

/// One tower's chosen target, and the numbers its shot will use.
#[derive(Clone, Copy, PartialEq, Eq, Debug, Structural)]
pub struct Aim {
    /// The tower that aimed.
    pub cell: IVec2,
    pub target: CreepId,
    pub center: Vec2,
    pub damage: Scalar,
    pub splash: Scalar,
    pub slow: Scalar,
    pub slow_duration: Scalar,
    /// The cooldown to charge the tower once it has fired.
    pub cooldown: Scalar,
    pub owner: PlayerKey,
}

/// One tower's scheduled shot.
#[derive(Clone, Copy, PartialEq, Eq, Debug, Structural)]
pub struct Shot {
    pub target: CreepId,
    pub center: Vec2,
    pub damage: Scalar,
    pub splash: Scalar,
    pub slow: Scalar,
    pub slow_duration: Scalar,
    pub owner: PlayerKey,
}

/// The factor a tower's damage and rate are multiplied by at its level.
pub open spec fn tier_factor(per_level: Scalar, level: u8) -> Scalar {
    sum(one(), product(per_level, from_whole(tiers(level))))
}

/// A tower after its cooldown ran for `dt`.
pub open spec fn readied(tower: Tower, dt: Scalar) -> Tower {
    Tower { cooldown: difference(tower.cooldown, dt), ..tower }
}

/// What a tower whose cooldown has just run aims at: nothing while it cools
/// down, while its kind is unknown, or while no creep is in reach.
pub open spec fn aim_of(
    b: BalanceView,
    m: MapView,
    creeps: Seq<(CreepId, Creep)>,
    cell: IVec2,
    tower: Tower,
) -> Option<Aim> {
    let stats = b.towers[tower.kind as int];
    let factor = tier_factor(stats.damage_per_level, tower.level);
    let range = product(stats.range, tier_factor(stats.range_per_level, tower.level));
    let best = target(m, creeps, cell_centre(m, cell), range, creeps.len() as int);
    if less(zero(), tower.cooldown) || tower.kind >= b.towers.len() || best is None {
        None
    } else {
        Some(
            Aim {
                cell,
                target: creeps[best->0].0,
                center: creep_position(m, creeps[best->0].1),
                damage: product(stats.damage, factor),
                splash: stats.splash,
                slow: stats.slow,
                slow_duration: stats.slow_duration,
                cooldown: quotient(stats.cooldown, factor),
                owner: tower.owner,
            },
        )
    }
}

/// What the first `n` towers aim at, after their cooldowns ran for `dt`.
pub open spec fn aims(b: BalanceView, m: MapView, v: SimView, dt: Scalar, n: int) -> Seq<Aim>
    decreases n,
{
    if n <= 0 {
        Seq::empty()
    } else {
        let before = aims(b, m, v, dt, n - 1);
        match aim_of(b, m, v.creeps, v.towers[n - 1].0, readied(v.towers[n - 1].1, dt)) {
            Some(aim) => before.push(aim),
            None => before,
        }
    }
}

/// The state after every tower's cooldown ran for `dt`.
pub open spec fn cooled(v: SimView, dt: Scalar) -> SimView {
    SimView { towers: v.towers.map_values(|e: (IVec2, Tower)| (e.0, readied(e.1, dt))), ..v }
}

// ---------------------------------------------------------------------------
// Shots
// ---------------------------------------------------------------------------

/// The towers after the first `n` of those that aimed spent their cooldowns.
pub open spec fn charged(towers: Seq<(IVec2, Tower)>, aims: Seq<Aim>, n: int) -> Seq<(IVec2, Tower)>
    decreases n,
{
    if n <= 0 {
        towers
    } else {
        let before = charged(towers, aims, n - 1);
        let aim = aims[n - 1];
        if holds(before, aim.cell) {
            setting(before, aim.cell, Tower { cooldown: aim.cooldown, ..value_of(before, aim.cell) })
        } else {
            before
        }
    }
}

/// The shot an aim becomes.
pub open spec fn shot_of(aim: Aim) -> Shot {
    Shot {
        target: aim.target,
        center: aim.center,
        damage: aim.damage,
        splash: aim.splash,
        slow: aim.slow,
        slow_duration: aim.slow_duration,
        owner: aim.owner,
    }
}

/// A shot hits a creep: its target, if that lives, and, for a splash tower,
/// everything alive near the impact point.
pub open spec fn hits(m: MapView, shot: Shot, id: CreepId, creep: Creep) -> bool {
    if id == shot.target {
        !at_most(creep.hp, zero())
    } else {
        less(zero(), shot.splash) && less(zero(), creep.hp) && at_most(
            gap(creep_position(m, creep), shot.center),
            shot.splash,
        )
    }
}

/// A creep that was hit: it loses health, remembers whose tower it was, and is
/// slowed where the shot slows.
pub open spec fn struck(creep: Creep, shot: Shot) -> Creep {
    let hurt = Creep { hp: difference(creep.hp, shot.damage), last_hit_by: shot.owner, ..creep };
    if less(shot.slow, one()) {
        Creep { slow_mult: smaller(creep.slow_mult, shot.slow), slow_timer: shot.slow_duration, ..hurt }
    } else {
        hurt
    }
}

/// The creeps after one shot.
pub open spec fn shot_at(m: MapView, creeps: Seq<(CreepId, Creep)>, shot: Shot) -> Seq<(CreepId, Creep)> {
    creeps.map_values(
        |e: (CreepId, Creep)|
            if hits(m, shot, e.0, e.1) {
                (e.0, struck(e.1, shot))
            } else {
                e
            },
    )
}

/// The creeps after the first `n` shots.
pub open spec fn damaged(m: MapView, creeps: Seq<(CreepId, Creep)>, shots: Seq<Shot>, n: int) -> Seq<(CreepId, Creep)>
    decreases n,
{
    if n <= 0 {
        creeps
    } else {
        shot_at(m, damaged(m, creeps, shots, n - 1), shots[n - 1])
    }
}

/// The state after the towers aimed, fired, and their shots resolved.
pub open spec fn fought(b: BalanceView, m: MapView, v: SimView, dt: Scalar) -> SimView {
    let all = aims(b, m, v, dt, v.towers.len() as int);
    let shots = all.map_values(|a: Aim| shot_of(a));
    SimView {
        towers: charged(cooled(v, dt).towers, all, all.len() as int),
        creeps: damaged(m, v.creeps, shots, shots.len() as int),
        ..v
    }
}

// ---------------------------------------------------------------------------
// The dead
// ---------------------------------------------------------------------------

/// The creep is dead.
pub open spec fn dead(creep: Creep) -> bool {
    at_most(creep.hp, zero())
}

/// The creeps that died.
pub open spec fn fallen(creeps: Seq<(CreepId, Creep)>) -> Seq<(CreepId, Creep)> {
    creeps.filter(|e: (CreepId, Creep)| dead(e.1))
}

/// The creeps that live.
pub open spec fn living(creeps: Seq<(CreepId, Creep)>) -> Seq<(CreepId, Creep)> {
    creeps.filter(|e: (CreepId, Creep)| !dead(e.1))
}

/// The state after the dead were removed and whoever killed them was paid.
pub open spec fn reaped(v: SimView) -> SimView {
    let gone = fallen(v.creeps);
    SimView { creeps: living(v.creeps), players: credited(v.players, gone, gone.len() as int), ..v }
}

/// What is announced of the dead.
pub open spec fn kill_events(v: SimView) -> Seq<SimEvent> {
    fallen(v.creeps).map_values(|e: (CreepId, Creep)| SimEvent::CreepKilled(e.0))
}

/// The players' purses have room for every bounty.
pub open spec fn reap_has_room(v: SimView) -> bool {
    let gone = fallen(v.creeps);
    credit_has_room(v.players, gone, gone.len() as int)
}

// ---------------------------------------------------------------------------
// The code
// ---------------------------------------------------------------------------

/// What keeps every key keeps a state that can be stepped.
pub(crate) proof fn lemma_same_keys(v: SimView, creeps: Seq<(CreepId, Creep)>)
    requires
        good(v),
        creeps.len() == v.creeps.len(),
        forall|i: int| 0 <= i < creeps.len() ==> (#[trigger] creeps[i]).0 == v.creeps[i].0,
    ensures
        good(SimView { creeps, ..v }),
{
    assert forall|i: int, j: int| 0 <= i < j < creeps.len() implies (#[trigger] creeps[i]).0 != (#[trigger] creeps[j]).0 by {
        assert(v.creeps[i].0 != v.creeps[j].0);
    }
    assert forall|i: int| 0 <= i < creeps.len() implies (#[trigger] creeps[i]).0.0 < v.next_id by {
        assert(v.creeps[i].0.0 < v.next_id);
    }
}

/// A filtered table holds only what the table held, each key once.
pub(crate) proof fn lemma_filtered<K, V>(s: Seq<(K, V)>, keep: spec_fn((K, V)) -> bool)
    requires
        unique(s),
    ensures
        unique(s.filter(keep)),
        s.filter(keep).len() <= s.len(),
        forall|i: int| 0 <= i < s.filter(keep).len() ==> s.contains(#[trigger] s.filter(keep)[i]) && keep(s.filter(keep)[i]),
    decreases s.len(),
{
    reveal(Seq::filter);
    if s.len() > 0 {
        let front = s.drop_last();
        assert(unique(front)) by {
            assert forall|i: int, j: int| 0 <= i < j < front.len() implies (#[trigger] front[i]).0 != (
            #[trigger] front[j]).0 by {
                assert(s[i].0 != s[j].0);
            }
        }
        lemma_filtered(front, keep);
        let part = front.filter(keep);
        let out = s.filter(keep);
        assert forall|i: int| 0 <= i < out.len() implies s.contains(#[trigger] out[i]) && keep(out[i]) by {
            if i < part.len() {
                assert(out[i] == part[i]);
                let k = choose|k: int| 0 <= k < front.len() && front[k] == part[i];
                assert(s[k] == out[i]);
            } else {
                assert(s[s.len() - 1] == out[i]);
            }
        }
        assert forall|i: int, j: int| 0 <= i < j < out.len() implies (#[trigger] out[i]).0 != (#[trigger] out[j]).0 by {
            if j < part.len() {
                assert(part[i].0 != part[j].0);
            } else {
                assert(out[i] == part[i]);
                let k = choose|k: int| 0 <= k < front.len() && front[k] == part[i];
                assert(s[k].0 != s[s.len() - 1].0);
            }
        }
    }
}

proof fn lemma_filtered_is_good(v: SimView, keep: spec_fn((CreepId, Creep)) -> bool)
    requires
        good(v),
    ensures
        good(SimView { creeps: v.creeps.filter(keep), ..v }),
{
    lemma_filtered(v.creeps, keep);
    let out = v.creeps.filter(keep);
    assert forall|i: int| 0 <= i < out.len() implies (#[trigger] out[i]).0.0 < v.next_id by {
        let k = choose|k: int| 0 <= k < v.creeps.len() && v.creeps[k] == out[i];
        assert(v.creeps[k].0.0 < v.next_id);
    }
}

/// An entry past those filtered so far has a key that none of them has.
pub(crate) proof fn lemma_next_key_is_new<K, V>(s: Seq<(K, V)>, n: int, keep: spec_fn((K, V)) -> bool)
    requires
        unique(s),
        0 <= n < s.len(),
    ensures
        !holds(s.take(n).filter(keep), s[n].0),
        unique(s.take(n)),
{
    let front = s.take(n);
    assert forall|i: int, j: int| 0 <= i < j < front.len() implies (#[trigger] front[i]).0 != (#[trigger] front[j]).0 by {
        assert(s[i].0 != s[j].0);
    }
    lemma_filtered(front, keep);
    let out = front.filter(keep);
    lemma_place(out, s[n].0);
    if holds(out, s[n].0) {
        let p = crate::table::place_of(out, s[n].0);
        assert(front.contains(out[p]));
        let k = choose|k: int| 0 <= k < front.len() && front[k] == out[p];
        assert(s[k].0 != s[n].0);
    }
}

/// Filtering one more entry.
pub(crate) proof fn lemma_filter_step<K, V>(s: Seq<(K, V)>, n: int, keep: spec_fn((K, V)) -> bool)
    requires
        0 <= n < s.len(),
    ensures
        s.take(n + 1).filter(keep) == (if keep(s[n]) {
            s.take(n).filter(keep).push(s[n])
        } else {
            s.take(n).filter(keep)
        }),
{
    reveal(Seq::filter);
    assert(s.take(n + 1).drop_last() =~= s.take(n));
    assert(s.take(n + 1).last() == s[n]);
}

impl Sim {
    /// Move every creep along its lane and run its slow timer down.
    fn advance_creeps(&mut self, dt: Scalar)
        requires
            old(self).wf(),
        ensures
            final(self).wf(),
            final(self).balance == old(self).balance,
            final(self).map == old(self).map,
            final(self)@ == marched(old(self)@, dt),
    {
        let ghost v = self@;
        let ghost done = marched(v, dt).creeps;
        let mut i: usize = 0;
        while i < self.creeps.len()
            invariant
                v == old(self)@,
                good(v),
                done == marched(v, dt).creeps,
                self.balance == old(self).balance,
                self.map == old(self).map,
                self.map.wf(),
                i <= self.creeps@.len() == v.creeps.len(),
                unique(self.creeps@),
                forall|k: int| 0 <= k < i ==> #[trigger] self.creeps@[k] == done[k],
                forall|k: int| i <= k < v.creeps.len() ==> #[trigger] self.creeps@[k] == v.creeps[k],
                self@ == (SimView { creeps: self.creeps@, ..v }),
            decreases v.creeps.len() - i,
        {
            let (_, creep) = self.creeps.entry(i);
            let mut c: Creep = creep;
            if c.slow_timer.gt(zero()) {
                c.slow_timer = c.slow_timer.minus(dt);
            }
            c.dist = c.dist.plus(c.base_speed.times(c.speed_mult()).times(dt));
            self.creeps.set_at(i, c);
            assert(self@ =~= SimView { creeps: self.creeps@, ..v });
            i = i + 1;
        }
        assert(self.creeps@ =~= done);
        assert(self@ =~= marched(v, dt));
        proof {
            lemma_same_keys(v, done);
        }
    }

    /// The creeps that have walked their whole lane have reached the goal: they
    /// leave the match and cost a life each.
    ///
    /// Lives are only spent when the rule is [`LoseRule::Lives`], but a leak is
    /// counted and announced either way.
    fn leak_arrivals(&mut self, events: &mut Vec<SimEvent>) -> (ok: bool)
        requires
            old(self).wf(),
        ensures
            final(self).wf(),
            final(self).balance == old(self).balance,
            final(self).map == old(self).map,
            ok == leak_has_room(old(self).map@, old(self)@),
            ok ==> final(self)@ == leaked(old(self).balance@, old(self).map@, old(self)@),
            ok ==> final(events)@ == old(events)@ + leak_events(old(self).map@, old(self)@),
    {
        let ghost v = self@;
        let ghost m = self.map@;
        let ghost all = v.creeps;
        let ghost heard = events@;
        let ghost stay = |e: (CreepId, Creep)| !arrived(m, e.1);
        let ghost go = |e: (CreepId, Creep)| arrived(m, e.1);
        let mut kept: Table<CreepId, Creep> = Table::new();
        let mut gone: Vec<CreepId> = Vec::new();
        let mut i: usize = 0;
        proof {
            reveal(Seq::filter);
            assert(all.take(0) =~= Seq::empty());
            assert(all.take(0).filter(stay) =~= Seq::empty());
            assert(all.take(0).filter(go) =~= Seq::empty());
        }
        while i < self.creeps.len()
            invariant
                *self == *old(self),
                self.wf(),
                v == self@,
                m == self.map@,
                all == v.creeps,
                all == self.creeps@,
                stay == (|e: (CreepId, Creep)| !arrived(m, e.1)),
                go == (|e: (CreepId, Creep)| arrived(m, e.1)),
                i <= all.len(),
                kept@ == all.take(i as int).filter(stay),
                unique(kept@),
                gone@ == all.take(i as int).filter(go).map_values(|e: (CreepId, Creep)| e.0),
            decreases all.len() - i,
        {
            let (id, creep) = self.creeps.entry(i);
            proof {
                lemma_filter_step(all, i as int, stay);
                lemma_filter_step(all, i as int, go);
                lemma_next_key_is_new(all, i as int, stay);
            }
            if creep.dist.ge(lane_of(&self.map, creep.lane).total) {
                gone.push(id);
                assert(gone@ =~= all.take(i + 1).filter(go).map_values(|e: (CreepId, Creep)| e.0));
            } else {
                kept.push(id, creep);
            }
            i = i + 1;
        }
        assert(all.take(all.len() as int) =~= all);
        let n: usize = gone.len();
        assert(n == at_the_goal(m, all).len());
        if n as u128 + self.leaks as u128 > u32::MAX as u128 {
            return false;
        }
        let count: u32 = n as u32;
        self.creeps = kept;
        self.leaks = self.leaks + count;
        if matches!(self.lose_rule(), LoseRule::Lives) {
            self.lives = if self.lives > count { self.lives - count } else { 0 };
        }
        let mut k: usize = 0;
        let ghost ids = gone@;
        assert(heard + ids.take(0).map_values(|id: CreepId| SimEvent::Leaked(id)) =~= heard);
        while k < gone.len()
            invariant
                ids == gone@,
                k <= ids.len(),
                events@ == heard + ids.take(k as int).map_values(|id: CreepId| SimEvent::Leaked(id)),
            decreases ids.len() - k,
        {
            events.push(SimEvent::Leaked(gone[k]));
            assert(events@ =~= heard + ids.take(k + 1).map_values(|id: CreepId| SimEvent::Leaked(id)));
            k = k + 1;
        }
        proof {
            assert(events@ =~= heard + leak_events(m, v));
            assert(self@ =~= leaked(self.balance@, m, v));
            lemma_filtered_is_good(v, stay);
        }
        true
    }

    /// What a tower may shoot at: the creep in reach that is closest to the
    /// goal.
    ///
    /// The comparison is on *distance remaining*, not on distance travelled: the
    /// board's lanes differ in length, so "has walked furthest" and "is nearly
    /// home" stop agreeing as soon as two creeps are on different lanes.
    fn choose_target(&self, origin: Vec2, range: Scalar) -> (best: Option<usize>)
        requires
            self.wf(),
        ensures
            match best {
                Some(i) => i < self.creeps@.len() && target(
                    self.map@,
                    self.creeps@,
                    origin,
                    range,
                    self.creeps@.len() as int,
                ) == Some(i as int),
                None => target(self.map@, self.creeps@, origin, range, self.creeps@.len() as int) is None,
            },
    {
        let ghost m = self.map@;
        let ghost creeps = self.creeps@;
        let mut best: Option<usize> = None;
        let mut least: Scalar = zero();
        let mut i: usize = 0;
        while i < self.creeps.len()
            invariant
                self.wf(),
                m == self.map@,
                creeps == self.creeps@,
                i <= creeps.len(),
                match best {
                    Some(j) => j < i && target(m, creeps, origin, range, i as int) == Some(j as int) && least == way_left(
                        m,
                        creeps[j as int].1,
                    ),
                    None => target(m, creeps, origin, range, i as int) is None,
                },
            decreases creeps.len() - i,
        {
            let (_, creep) = self.creeps.entry(i);
            if !creep.hp.le(zero()) && creep.pos(&self.map).distance(origin).le(range) {
                let left = creep.remaining(&self.map);
                if best.is_none() || left.lt(least) {
                    best = Some(i);
                    least = left;
                }
            }
            i = i + 1;
        }
        best
    }

    fn aim_tower(&self, cell: IVec2, tower: Tower) -> (aim: Option<Aim>)
        requires
            self.wf(),
        ensures
            aim == aim_of(self.balance@, self.map@, self.creeps@, cell, tower),
    {
        if tower.cooldown.gt(zero()) {
            return None;
        }
        match self.balance.tower(tower.kind) {
            None => None,
            Some(stats) => {
                assert(self.balance@.towers[tower.kind as int] == stats@);
                let steps: u32 = if tower.level == 0 { 0 } else { (tower.level - 1) as u32 };
                let rise = Scalar::from_u32(steps);
                let tier = one().plus(stats.damage_per_level.times(rise));
                let damage = stats.damage.times(tier);
                let range = stats.range.times(one().plus(stats.range_per_level.times(rise)));
                let cooldown = stats.cooldown.over(tier);
                match self.choose_target(self.map.cell_to_world(cell), range) {
                    None => None,
                    Some(i) => {
                        let (id, creep) = self.creeps.entry(i);
                        Some(
                            Aim {
                                cell,
                                target: id,
                                center: creep.pos(&self.map),
                                damage,
                                splash: stats.splash,
                                slow: stats.slow,
                                slow_duration: stats.slow_duration,
                                cooldown,
                                owner: tower.owner,
                            },
                        )
                    },
                }
            },
        }
    }

    /// Every tower that is off cooldown chooses a target, and nothing else
    /// happens. The cooldown ticks down here but is not *spent*, and no damage is
    /// dealt.
    fn acquire(&mut self, dt: Scalar) -> (chosen: Vec<Aim>)
        requires
            old(self).wf(),
        ensures
            final(self).wf(),
            final(self).balance == old(self).balance,
            final(self).map == old(self).map,
            final(self)@ == cooled(old(self)@, dt),
            chosen@ == aims(
                old(self).balance@,
                old(self).map@,
                old(self)@,
                dt,
                old(self).towers@.len() as int,
            ),
    {
        let ghost v = self@;
        let ghost b = self.balance@;
        let ghost m = self.map@;
        let ghost done = cooled(v, dt).towers;
        let mut chosen: Vec<Aim> = Vec::new();
        let mut i: usize = 0;
        while i < self.towers.len()
            invariant
                v == old(self)@,
                good(v),
                b == old(self).balance@,
                m == old(self).map@,
                done == cooled(v, dt).towers,
                self.balance == old(self).balance,
                self.map == old(self).map,
                self.map.wf(),
                i <= self.towers@.len() == v.towers.len(),
                unique(self.towers@),
                forall|k: int| 0 <= k < i ==> #[trigger] self.towers@[k] == done[k],
                forall|k: int| i <= k < v.towers.len() ==> #[trigger] self.towers@[k] == v.towers[k],
                self@ == (SimView { towers: self.towers@, ..v }),
                chosen@ == aims(b, m, v, dt, i as int),
            decreases v.towers.len() - i,
        {
            let (cell, tower) = self.towers.entry(i);
            let ready = Tower {
                kind: tower.kind,
                level: tower.level,
                owner: tower.owner,
                cooldown: tower.cooldown.minus(dt),
            };
            self.towers.set_at(i, ready);
            assert(self@ =~= SimView { towers: self.towers@, ..v });
            assert(good(self@));
            match self.aim_tower(cell, ready) {
                Some(aim) => {
                    chosen.push(aim);
                },
                None => {},
            }
            i = i + 1;
        }
        assert(self.towers@ =~= done);
        assert(self@ =~= cooled(v, dt));
        chosen
    }

    /// The towers that chose a target commit to a shot, and spend their cooldown
    /// doing it.
    fn fire(&mut self, chosen: Vec<Aim>) -> (shots: Vec<Shot>)
        requires
            old(self).wf(),
        ensures
            final(self).wf(),
            final(self).balance == old(self).balance,
            final(self).map == old(self).map,
            final(self)@ == (SimView {
                towers: charged(old(self)@.towers, chosen@, chosen@.len() as int),
                ..old(self)@
            }),
            shots@ == chosen@.map_values(|a: Aim| shot_of(a)),
    {
        let ghost v = self@;
        let mut shots: Vec<Shot> = Vec::new();
        let mut i: usize = 0;
        assert(self@ =~= SimView { towers: charged(v.towers, chosen@, 0), ..v });
        while i < chosen.len()
            invariant
                v == old(self)@,
                good(v),
                self.balance == old(self).balance,
                self.map == old(self).map,
                self.map.wf(),
                i <= chosen@.len(),
                unique(self.towers@),
                self@ == (SimView { towers: charged(v.towers, chosen@, i as int), ..v }),
                shots@ == chosen@.take(i as int).map_values(|a: Aim| shot_of(a)),
            decreases chosen@.len() - i,
        {
            let aim = chosen[i];
            if let Some(tower) = self.towers.get(&aim.cell) {
                self.towers.insert(
                    aim.cell,
                    Tower { kind: tower.kind, level: tower.level, owner: tower.owner, cooldown: aim.cooldown },
                );
            }
            assert(self@ =~= SimView { towers: charged(v.towers, chosen@, i + 1), ..v });
            shots.push(
                Shot {
                    target: aim.target,
                    center: aim.center,
                    damage: aim.damage,
                    splash: aim.splash,
                    slow: aim.slow,
                    slow_duration: aim.slow_duration,
                    owner: aim.owner,
                },
            );
            assert(shots@ =~= chosen@.take(i + 1).map_values(|a: Aim| shot_of(a)));
            i = i + 1;
        }
        assert(chosen@.take(chosen@.len() as int) =~= chosen@);
        shots
    }

    /// Damage one shot's target, and -- for a splash tower -- everything near the
    /// impact point.
    fn apply_shot(&mut self, shot: &Shot)
        requires
            old(self).wf(),
        ensures
            final(self).wf(),
            final(self).balance == old(self).balance,
            final(self).map == old(self).map,
            final(self)@ == (SimView { creeps: shot_at(old(self).map@, old(self)@.creeps, *shot), ..old(self)@ }),
    {
        let ghost v = self@;
        let ghost m = self.map@;
        let ghost done = shot_at(m, v.creeps, *shot);
        let mut i: usize = 0;
        while i < self.creeps.len()
            invariant
                v == old(self)@,
                good(v),
                m == old(self).map@,
                done == shot_at(m, v.creeps, *shot),
                self.balance == old(self).balance,
                self.map == old(self).map,
                self.map.wf(),
                i <= self.creeps@.len() == v.creeps.len(),
                unique(self.creeps@),
                forall|k: int| 0 <= k < i ==> #[trigger] self.creeps@[k] == done[k],
                forall|k: int| i <= k < v.creeps.len() ==> #[trigger] self.creeps@[k] == v.creeps[k],
                self@ == (SimView { creeps: self.creeps@, ..v }),
            decreases v.creeps.len() - i,
        {
            let (id, creep) = self.creeps.entry(i);
            let hit = if id.0 == shot.target.0 {
                !creep.hp.le(zero())
            } else {
                shot.splash.gt(zero()) && creep.hp.gt(zero()) && creep.pos(&self.map).distance(shot.center).le(
                    shot.splash,
                )
            };
            if hit {
                let mut c: Creep = creep;
                c.hp = c.hp.minus(shot.damage);
                c.last_hit_by = shot.owner;
                if shot.slow.lt(one()) {
                    c.slow_mult = c.slow_mult.min(shot.slow);
                    c.slow_timer = shot.slow_duration;
                }
                assert(c == struck(creep, *shot));
                self.creeps.set_at(i, c);
            }
            assert(self.creeps@[i as int] == done[i as int]);
            assert(self@ =~= SimView { creeps: self.creeps@, ..v });
            i = i + 1;
        }
        assert(self.creeps@ =~= done);
        assert(self@ =~= SimView { creeps: done, ..v });
        proof {
            lemma_same_keys(v, done);
        }
    }

    /// Resolve the shots that were fired. Every point of damage a tower deals
    /// arrives here.
    fn damage(&mut self, shots: &Vec<Shot>)
        requires
            old(self).wf(),
        ensures
            final(self).wf(),
            final(self).balance == old(self).balance,
            final(self).map == old(self).map,
            final(self)@ == (SimView {
                creeps: damaged(old(self).map@, old(self)@.creeps, shots@, shots@.len() as int),
                ..old(self)@
            }),
    {
        let ghost v = self@;
        let ghost m = self.map@;
        let mut i: usize = 0;
        assert(self@ =~= SimView { creeps: damaged(m, v.creeps, shots@, 0), ..v });
        while i < shots.len()
            invariant
                v == old(self)@,
                m == old(self).map@,
                self.wf(),
                self.balance == old(self).balance,
                self.map == old(self).map,
                i <= shots@.len(),
                self@ == (SimView { creeps: damaged(m, v.creeps, shots@, i as int), ..v }),
            decreases shots@.len() - i,
        {
            self.apply_shot(&shots[i]);
            assert(self@ =~= SimView { creeps: damaged(m, v.creeps, shots@, i + 1), ..v });
            i = i + 1;
        }
    }

    /// Remove the creeps that died, pay whoever killed them, and announce them.
    fn reap(&mut self, events: &mut Vec<SimEvent>) -> (ok: bool)
        requires
            old(self).wf(),
        ensures
            final(self).wf(),
            final(self).balance == old(self).balance,
            final(self).map == old(self).map,
            ok == reap_has_room(old(self)@),
            ok ==> final(self)@ == reaped(old(self)@),
            ok ==> final(events)@ == old(events)@ + kill_events(old(self)@),
    {
        let ghost v = self@;
        let ghost all = v.creeps;
        let ghost heard = events@;
        let ghost stay = |e: (CreepId, Creep)| !dead(e.1);
        let ghost go = |e: (CreepId, Creep)| dead(e.1);
        let mut kept: Table<CreepId, Creep> = Table::new();
        let mut gone: Vec<(CreepId, Creep)> = Vec::new();
        let mut i: usize = 0;
        proof {
            reveal(Seq::filter);
            assert(all.take(0) =~= Seq::empty());
            assert(all.take(0).filter(stay) =~= Seq::empty());
            assert(all.take(0).filter(go) =~= Seq::empty());
        }
        while i < self.creeps.len()
            invariant
                *self == *old(self),
                self.wf(),
                v == self@,
                all == v.creeps,
                all == self.creeps@,
                stay == (|e: (CreepId, Creep)| !dead(e.1)),
                go == (|e: (CreepId, Creep)| dead(e.1)),
                i <= all.len(),
                kept@ == all.take(i as int).filter(stay),
                unique(kept@),
                gone@ == all.take(i as int).filter(go),
            decreases all.len() - i,
        {
            let (id, creep) = self.creeps.entry(i);
            proof {
                lemma_filter_step(all, i as int, stay);
                lemma_filter_step(all, i as int, go);
                lemma_next_key_is_new(all, i as int, stay);
            }
            if creep.hp.le(zero()) {
                gone.push((id, creep));
            } else {
                kept.push(id, creep);
            }
            i = i + 1;
        }
        assert(all.take(all.len() as int) =~= all);
        assert(gone@ == fallen(all));
        self.creeps = kept;
        let ghost w = SimView { creeps: living(all), ..v };
        assert(self@ =~= w);
        proof {
            lemma_filtered_is_good(v, stay);
            assert(gone@.take(0).map_values(|e: (CreepId, Creep)| SimEvent::CreepKilled(e.0)) =~= Seq::empty());
            assert(heard + gone@.take(0).map_values(|e: (CreepId, Creep)| SimEvent::CreepKilled(e.0)) =~= heard);
        }
        let mut k: usize = 0;
        while k < gone.len()
            invariant
                good(v),
                v == old(self)@,
                w == (SimView { creeps: living(all), ..v }),
                good(w),
                all == v.creeps,
                gone@ == fallen(all),
                self.balance == old(self).balance,
                self.map == old(self).map,
                self.map.wf(),
                k <= gone@.len(),
                unique(self.players@),
                self@ == (SimView { players: credited(v.players, gone@, k as int), ..w }),
                credit_has_room(v.players, gone@, k as int),
                events@ == heard + gone@.take(k as int).map_values(|e: (CreepId, Creep)| SimEvent::CreepKilled(e.0)),
            decreases gone@.len() - k,
        {
            let (id, creep) = gone[k];
            if !self.credit_kill(creep) {
                proof {
                    lemma_no_room(v.players, gone@, k + 1, gone@.len() as int);
                }
                return false;
            }
            events.push(SimEvent::CreepKilled(id));
            proof {
                assert(self@ =~= SimView { players: credited(v.players, gone@, k + 1), ..w });
                assert(events@ =~= heard + gone@.take(k + 1).map_values(
                    |e: (CreepId, Creep)| SimEvent::CreepKilled(e.0),
                ));
            }
            k = k + 1;
        }
        proof {
            assert(gone@.take(gone@.len() as int) =~= gone@);
            assert(self@ =~= reaped(v));
            assert(events@ =~= heard + kill_events(v));
        }
        true
    }

    /// The second half of a tick: the creeps move, those that arrived leak, the
    /// towers aim and fire, the shots resolve, and the dead are reaped. False
    /// where a counter has no room.
    pub(crate) fn fight(&mut self, dt: Scalar, events: &mut Vec<SimEvent>) -> (ok: bool)
        requires
            old(self).wf(),
        ensures
            final(self).wf(),
            final(self).balance == old(self).balance,
            final(self).map == old(self).map,
            ok == fight_has_room(old(self).balance@, old(self).map@, old(self)@, dt),
            ok ==> final(self)@ == after_fight(old(self).balance@, old(self).map@, old(self)@, dt),
            ok ==> final(events)@ == old(events)@ + fight_events(old(self).balance@, old(self).map@, old(self)@, dt),
    {
        let ghost b = self.balance@;
        let ghost m = self.map@;
        let ghost v0 = self@;
        let ghost heard = events@;
        self.advance_creeps(dt);
        let ghost v1 = self@;
        if !self.leak_arrivals(events) {
            return false;
        }
        let ghost v2 = self@;
        let chosen = self.acquire(dt);
        let shots = self.fire(chosen);
        self.damage(&shots);
        assert(self@ =~= fought(b, m, v2, dt));
        let ok = self.reap(events);
        proof {
            if ok {
                assert(events@ =~= heard + fight_events(b, m, v0, dt));
            }
        }
        ok
    }
}

/// The creeps, once moved and with the arrivals gone, before the towers fire.
pub open spec fn before_fire(b: BalanceView, m: MapView, v: SimView, dt: Scalar) -> SimView {
    leaked(b, m, marched(v, dt))
}

/// The state after the creeps moved, the arrivals leaked, the towers fired and
/// the dead were reaped, in this order.
pub open spec fn after_fight(b: BalanceView, m: MapView, v: SimView, dt: Scalar) -> SimView {
    reaped(fought(b, m, before_fire(b, m, v, dt), dt))
}

/// What is announced of it.
pub open spec fn fight_events(b: BalanceView, m: MapView, v: SimView, dt: Scalar) -> Seq<SimEvent> {
    leak_events(m, marched(v, dt)) + kill_events(fought(b, m, before_fire(b, m, v, dt), dt))
}

/// The counters have room for it.
pub open spec fn fight_has_room(b: BalanceView, m: MapView, v: SimView, dt: Scalar) -> bool {
    leak_has_room(m, marched(v, dt)) && reap_has_room(fought(b, m, before_fire(b, m, v, dt), dt))
}

proof fn lemma_no_room(players: Seq<(PlayerKey, Player)>, gone: Seq<(CreepId, Creep)>, n: int, end: int)
    requires
        0 < n <= end,
        !credit_has_room(players, gone, n),
    ensures
        !credit_has_room(players, gone, end),
    decreases end - n,
{
    if n < end {
        lemma_no_room(players, gone, n + 1, end);
    }
}

} // verus!
