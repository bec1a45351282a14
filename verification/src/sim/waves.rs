//! The wave loop: when a wave starts, who is in it, and who may summon one.
//!
//! A wave arrives on *every lane*: it is not "your" creeps, it is the board's.
//! One wave is therefore one group of creeps per lane, each entering at its own
//! spawn point and walking the same walk to the same goal.

use crate::data::balance::{lane_share, wave_bounty, wave_hp, wave_speed, BalanceView};
use crate::data::components::{phase_byte, MatchView};
use crate::data::reject::Reject;
use crate::map::MapView;
use crate::order::{at_most, clamped, half, larger, less, one, smaller, zero};
use crate::scalar::{difference, from_whole, negated, product, quotient, sum, Scalar};
use crate::sim::rng::{drawn, fraction, mixed, state_after};
use crate::sim::{
    alive, good, lane_total, lobby, low_bits, phase_of_match, Creep, CreepId, Player, PlayerKey, Sim, SimEvent, SimView,
};
use crate::table::{holds, lemma_place, setting, unique, value_of};
use vstd::prelude::*;

verus! {

// ---------------------------------------------------------------------------
// How many, and how far apart
// ---------------------------------------------------------------------------

/// Creeps one lane sends in a wave of this number.
pub open spec fn per_lane(b: BalanceView, v: SimView) -> int {
    lane_share(b.scaling, v.wave as u32, lobby(v))
}

/// The whole wave: every lane's share, summed.
pub open spec fn whole_wave(b: BalanceView, m: MapView, v: SimView) -> int {
    per_lane(b, v) * lane_total(m)
}

/// A wave of the current number can be counted.
pub open spec fn countable(b: BalanceView, m: MapView, v: SimView) -> bool {
    per_lane(b, v) <= u32::MAX && whole_wave(b, m, v) <= u32::MAX
}

/// What the server replicates of a match.
pub open spec fn view_of(b: BalanceView, m: MapView, v: SimView) -> MatchView {
    MatchView {
        wave: v.wave as u32,
        live_creeps: alive(v),
        overrun_cap: b.match_rules.overrun_cap,
        creeps_per_wave: whole_wave(b, m, v) as u32,
        lives: v.lives as u32,
        leaks: v.leaks as u32,
        players: lobby(v),
        phase: phase_byte(phase_of_match(v)),
    }
}

/// How far apart to space creeps so that the column fits in the arc: the gap the
/// table asks for, unless that would push the last creep past the arc.
pub open spec fn spacing(count: int, gap: Scalar, arc: Scalar) -> Scalar {
    if count <= 1 {
        gap
    } else {
        smaller(gap, quotient(arc, from_whole(count - 1)))
    }
}

/// How far apart to space `count` creeps so that the column fits in `arc`.
///
/// A single creep needs no room at all, so the answer for one creep is the
/// table's gap, whether or not it would fit.
pub fn column_gap(count: u32, gap: Scalar, arc: Scalar) -> (r: Scalar)
    ensures
        r == spacing(count as int, gap, arc),
{
    if count <= 1 {
        gap
    } else {
        gap.min(arc.over(Scalar::from_u32(count - 1)))
    }
}

/// The length of a column: a gap for every creep behind the first.
pub open spec fn column_extent(count: int, gap: Scalar, arc: Scalar) -> Scalar {
    product(spacing(count, gap, arc), from_whole(if count <= 0 { 0 } else { count - 1 }))
}

/// The length of a column of `count` creeps.
pub fn column_length(count: u32, gap: Scalar, arc: Scalar) -> (r: Scalar)
    ensures
        r == column_extent(count as int, gap, arc),
{
    let steps: u32 = if count == 0 { 0 } else { count - 1 };
    column_gap(count, gap, arc).times(Scalar::from_u32(steps))
}

// ---------------------------------------------------------------------------
// Starting a wave
// ---------------------------------------------------------------------------

/// How far from its slot the creep of draw `k` enters.
pub open spec fn drift(jitter: Scalar, rng: u64, k: int) -> Scalar {
    let low = negated(jitter);
    if less(low, jitter) {
        drawn(low, jitter, fraction(mixed(state_after(rng, (k + 1) as nat))))
    } else {
        low
    }
}

/// The generator after `total` creeps were placed. Without jitter nothing is
/// drawn.
pub open spec fn after_draws(jitter: Scalar, rng: u64, total: int) -> u64 {
    if less(negated(jitter), jitter) {
        state_after(rng, total as nat)
    } else {
        rng
    }
}

/// The bounded jitter of a wave.
pub open spec fn jitter_of(b: BalanceView, n: int) -> Scalar {
    product(spacing(n, b.scaling.spawn_gap, b.scaling.spawn_arc), b.scaling.spawn_jitter)
}

/// Where a slot of a column ends and the next one begins: half a gap past its
/// centre.
pub open spec fn slot_end(gap: Scalar, i: int) -> Scalar {
    product(sum(from_whole(i), half()), gap)
}

/// Where a slot of a column begins.
pub open spec fn slot_start(gap: Scalar, i: int) -> Scalar {
    if i <= 0 {
        product(negated(half()), gap)
    } else {
        slot_end(gap, i - 1)
    }
}

/// The jitter is one under which a column can keep its order: less than half a
/// gap to either side.
pub open spec fn orderly(gap: Scalar, spawn_jitter: Scalar) -> bool {
    at_most(zero(), gap) && at_most(zero(), spawn_jitter) && less(spawn_jitter, half())
}

/// Where a creep enters: off the centre of its slot by its drift, and never past
/// the arc. Where the jitter keeps a column in order the creep stays inside its
/// slot, so that the order holds whatever is rounded.
pub open spec fn entry(gap: Scalar, arc: Scalar, i: int, drift: Scalar, in_order: bool) -> Scalar {
    let placed = sum(product(from_whole(i), gap), drift);
    let kept = if in_order {
        clamped(placed, slot_start(gap, i), slot_end(gap, i))
    } else {
        placed
    };
    if less(arc, kept) {
        arc
    } else {
        kept
    }
}

/// Where the creep of a slot enters.
fn enter(gap: Scalar, arc: Scalar, i: u32, drift: Scalar, in_order: bool) -> (dist: Scalar)
    ensures
        dist == entry(gap, arc, i as int, drift, in_order),
{
    let centre = Scalar::from_u32(i);
    let placed = centre.times(gap).plus(drift);
    let mut kept = placed;
    if in_order {
        let start = if i == 0 {
            half().negate().times(gap)
        } else {
            Scalar::from_u32(i - 1).plus(half()).times(gap)
        };
        let end = centre.plus(half()).times(gap);
        if placed.lt(start) {
            kept = start;
        } else if placed.gt(end) {
            kept = end;
        }
    }
    if kept.gt(arc) {
        arc
    } else {
        kept
    }
}

/// Creep `k` of a wave that sends `n` creeps per lane: the lanes are filled one
/// after another, and within a lane the creeps enter in a column at the spawn
/// point.
pub open spec fn newborn(b: BalanceView, wave: u32, n: int, rng: u64, k: int) -> Creep {
    let s = b.scaling;
    Creep {
        lane: ((k / n) % 256) as u8,
        dist: entry(
            spacing(n, s.spawn_gap, s.spawn_arc),
            s.spawn_arc,
            k % n,
            drift(jitter_of(b, n), rng, k),
            orderly(spacing(n, s.spawn_gap, s.spawn_arc), s.spawn_jitter),
        ),
        hp: wave_hp(s, wave),
        max_hp: wave_hp(s, wave),
        base_speed: wave_speed(s, wave),
        slow_mult: one(),
        slow_timer: zero(),
        bounty: wave_bounty(s, wave) as u32,
        last_hit_by: PlayerKey(0),
    }
}

/// The first `total` creeps of a wave, with their ids.
pub open spec fn column(b: BalanceView, wave: u32, n: int, rng: u64, next_id: int, total: int) -> Seq<(CreepId, Creep)> {
    Seq::new(total as nat, |k: int| (CreepId((next_id + k) as u32), newborn(b, wave, n, rng, k)))
}

/// The announcements of the first `total` creeps of a wave.
pub open spec fn arrivals(next_id: int, total: int) -> Seq<SimEvent> {
    Seq::new(total as nat, |k: int| SimEvent::CreepSpawned(CreepId((next_id + k) as u32)))
}

/// Creeps per lane of the wave that starts next.
pub open spec fn next_per_lane(b: BalanceView, v: SimView) -> int {
    lane_share(b.scaling, (v.wave + 1) as u32, lobby(v))
}

/// Creeps of the wave that starts next.
pub open spec fn next_size(b: BalanceView, m: MapView, v: SimView) -> int {
    next_per_lane(b, v) * m.lanes.len()
}

/// The state after a wave starts.
pub open spec fn wave_started(b: BalanceView, m: MapView, v: SimView) -> SimView {
    let n = next_per_lane(b, v);
    let total = next_size(b, m, v);
    SimView {
        wave: v.wave + 1,
        wave_timer: b.match_rules.wave_interval,
        creeps: v.creeps + column(b, (v.wave + 1) as u32, n, v.rng, v.next_id, total),
        next_id: v.next_id + total,
        rng: after_draws(jitter_of(b, n), v.rng, total),
        ..v
    }
}

/// The counters have room for the wave that starts next.
pub open spec fn wave_has_room(b: BalanceView, m: MapView, v: SimView) -> bool {
    &&& v.wave < u32::MAX
    &&& next_per_lane(b, v) <= u32::MAX
    &&& v.next_id + next_size(b, m, v) <= u32::MAX
}

/// The wave timer runs out within `dt`.
pub open spec fn wave_due(v: SimView, dt: Scalar) -> bool {
    !less(zero(), difference(v.wave_timer, dt))
}

/// The state after the wave clock ran for `dt`.
pub open spec fn clock_ticked(b: BalanceView, m: MapView, v: SimView, dt: Scalar) -> SimView {
    let run = SimView { wave_timer: difference(v.wave_timer, dt), ..v };
    if wave_due(v, dt) {
        wave_started(b, m, run)
    } else {
        run
    }
}

/// What is announced when the wave clock ran for `dt`.
pub open spec fn clock_events(b: BalanceView, m: MapView, v: SimView, dt: Scalar) -> Seq<SimEvent> {
    if wave_due(v, dt) {
        seq![SimEvent::WaveStarted((v.wave + 1) as u32)] + arrivals(v.next_id, next_size(b, m, v))
    } else {
        Seq::empty()
    }
}

/// The state after every player's wave-call cooldown ran down by `dt`.
pub open spec fn calls_ticked(v: SimView, dt: Scalar) -> SimView {
    SimView {
        players: v.players.map_values(
            |e: (PlayerKey, Player)|
                (
                    e.0,
                    Player { wave_call_cooldown: larger(difference(e.1.wave_call_cooldown, dt), zero()), ..e.1 },
                ),
        ),
        ..v
    }
}

/// The state after the first phase of a tick: the wave clock, then the wave-call
/// cooldowns.
pub open spec fn spawned(b: BalanceView, m: MapView, v: SimView, dt: Scalar) -> SimView {
    calls_ticked(clock_ticked(b, m, v, dt), dt)
}

/// The counters have room for the first phase of a tick.
pub open spec fn spawn_has_room(b: BalanceView, m: MapView, v: SimView, dt: Scalar) -> bool {
    wave_due(v, dt) ==> wave_has_room(b, m, v)
}

// ---------------------------------------------------------------------------
// Calling a wave
// ---------------------------------------------------------------------------

/// What a call for the next wave comes to: refused when the match is over, when
/// the caller is not in it, or inside the caller's cooldown; otherwise the timer
/// is zeroed and the caller's cooldown starts.
pub open spec fn called(b: BalanceView, v: SimView, who: PlayerKey) -> Result<SimView, Reject> {
    if v.over {
        Err(Reject::MatchOver)
    } else if !holds(v.players, who) {
        Err(Reject::NotInMatch)
    } else if less(zero(), value_of(v.players, who).wave_call_cooldown) {
        Err(Reject::RateLimited)
    } else {
        Ok(
            SimView {
                players: setting(
                    v.players,
                    who,
                    Player {
                        wave_call_cooldown: b.match_rules.call_wave_cooldown,
                        ..value_of(v.players, who)
                    },
                ),
                wave_timer: zero(),
                ..v
            },
        )
    }
}

// ---------------------------------------------------------------------------
// The code
// ---------------------------------------------------------------------------

impl Sim {
    /// Creeps one lane sends in a wave of the current number.
    pub fn creeps_per_lane(&self) -> (n: u32)
        requires
            per_lane(self.balance@, self@) <= u32::MAX,
        ensures
            n == per_lane(self.balance@, self@),
    {
        let players: u32 = self.players_connected();
        self.balance.creeps_per_lane(self.wave, players)
    }

    /// Creeps a wave of the current number puts on the board: every lane's
    /// share, summed.
    pub fn wave_size(&self) -> (n: u32)
        requires
            countable(self.balance@, self.map@, self@),
        ensures
            n == whole_wave(self.balance@, self.map@, self@),
    {
        self.creeps_per_lane() * self.lane_count()
    }

    /// True when a wave of the current number can be counted.
    pub fn is_countable(&self) -> (yes: bool)
        ensures
            yes == countable(self.balance@, self.map@, self@),
    {
        match self.balance.checked_creeps_per_lane(self.wave, self.players_connected()) {
            Some(each) => each.checked_mul(self.lane_count()).is_some(),
            None => false,
        }
    }

    /// How many lanes the board has.
    pub fn lane_count(&self) -> (n: u32)
        ensures
            n == lane_total(self.map@),
    {
        low_bits(self.map.lanes.len())
    }

    /// Exactly what the server should be replicating right now.
    pub fn match_view(&self) -> (view: MatchView)
        requires
            countable(self.balance@, self.map@, self@),
        ensures
            view == view_of(self.balance@, self.map@, self@),
    {
        MatchView {
            wave: self.wave,
            live_creeps: self.creeps_alive(),
            overrun_cap: self.overrun_cap(),
            creeps_per_wave: self.wave_size(),
            lives: self.lives,
            leaks: self.leaks,
            players: self.players_connected(),
            phase: self.phase().as_u8(),
        }
    }

    /// Skip the rest of the wave timer, if the caller is allowed to.
    ///
    /// *Any player in the match* may call the next wave, because calling a wave
    /// is a shared, cooperative action on a board every player is defending, but
    /// each player may only do so once every cooldown. A refusal is never
    /// silent, and changes nothing.
    pub fn call_wave(&mut self, who: PlayerKey) -> (r: Result<(), Reject>)
        requires
            old(self).wf(),
        ensures
            final(self).wf(),
            final(self).balance == old(self).balance,
            final(self).map == old(self).map,
            match r {
                Ok(_) => called(old(self).balance@, old(self)@, who) == Ok::<SimView, Reject>(final(self)@),
                Err(reject) => called(old(self).balance@, old(self)@, who) == Err::<SimView, Reject>(reject)
                    && final(self)@ == old(self)@,
            },
    {
        if self.over {
            return Err(Reject::MatchOver);
        }
        let cooldown = self.balance.match_rules.call_wave_cooldown;
        match self.players.get(&who) {
            None => {
                return Err(Reject::NotInMatch);
            },
            Some(p) => {
                if p.wave_call_cooldown.gt(zero()) {
                    return Err(Reject::RateLimited);
                }
                self.players.insert(
                    who,
                    Player {
                        gold: p.gold,
                        kills: p.kills,
                        connected: p.connected,
                        wave_call_cooldown: cooldown,
                    },
                );
            },
        }
        self.wave_timer = zero();
        assert(self@ =~= called(old(self).balance@, old(self)@, who)->Ok_0);
        Ok(())
    }

    /// Starts a wave, or reports that a counter has no room for it.
    fn start_wave(&mut self, events: &mut Vec<SimEvent>) -> (ok: bool)
        requires
            old(self).wf(),
        ensures
            final(self).wf(),
            final(self).balance == old(self).balance,
            final(self).map == old(self).map,
            ok == wave_has_room(old(self).balance@, old(self).map@, old(self)@),
            ok ==> final(self)@ == wave_started(old(self).balance@, old(self).map@, old(self)@),
            ok ==> final(events)@ == old(events)@ + seq![SimEvent::WaveStarted((old(self).wave + 1) as u32)] + arrivals(
                old(self).next_id as int,
                next_size(old(self).balance@, old(self).map@, old(self)@),
            ),
    {
        let ghost b = self.balance@;
        let ghost m = self.map@;
        let ghost v = self@;
        let ghost size = next_size(b, m, v);
        proof {
            lemma_next_per_lane(b, v);
        }
        if self.wave == u32::MAX {
            return false;
        }
        let wave: u32 = self.wave + 1;
        let n: u32 = match self.balance.checked_creeps_per_lane(wave, self.players_connected()) {
            Some(n) => n,
            None => {
                return false;
            },
        };
        let lanes: usize = self.map.lanes.len();
        assert(m.lanes.len() == lanes);
        proof {
            assert(n * lanes <= 0xFFFF_FFFF * 0xFFFF_FFFF_FFFF_FFFF) by (nonlinear_arith)
                requires
                    0 <= n <= 0xFFFF_FFFF,
                    0 <= lanes <= 0xFFFF_FFFF_FFFF_FFFF,
            ;
        }
        let total: u128 = n as u128 * lanes as u128;
        if total > (u32::MAX - self.next_id) as u128 {
            return false;
        }
        let ghost first = v.next_id;
        let ghost rng0 = v.rng;
        let ghost heard = events@;
        self.wave = wave;
        self.wave_timer = self.balance.match_rules.wave_interval;
        events.push(SimEvent::WaveStarted(wave));
        let hp = self.balance.creep_hp(wave);
        let speed = self.balance.creep_speed(wave);
        let bounty: u32 = self.balance.creep_bounty(wave);
        let gap = column_gap(n, self.balance.waves.scaling.spawn_gap, self.balance.waves.scaling.spawn_arc);
        let arc = self.balance.waves.scaling.spawn_arc;
        let jitter = gap.times(self.balance.waves.scaling.spawn_jitter);
        let low = jitter.negate();
        let share = self.balance.waves.scaling.spawn_jitter;
        let in_order = gap.ge(zero()) && share.ge(zero()) && share.lt(half());
        let ghost announced = events@;
        proof {
            assert(v.creeps + column(b, wave, n as int, rng0, first, 0) =~= v.creeps);
            assert(announced + arrivals(first, 0) =~= announced);
        }
        let mut k: u32 = 0;
        let mut lane: usize = 0;
        while lane < lanes
            invariant
                b == old(self).balance@,
                m == old(self).map@,
                v == old(self)@,
                good(v),
                self.balance == old(self).balance,
                self.map == old(self).map,
                self.map.wf(),
                first == v.next_id,
                rng0 == v.rng,
                wave == v.wave + 1,
                n >= 1,
                n == next_per_lane(b, v),
                m.lanes.len() == lanes,
                size == next_size(b, m, v),
                size == n * lanes,
                first + size <= u32::MAX,
                lane <= lanes,
                k == lane * n,
                hp == wave_hp(b.scaling, wave),
                speed == wave_speed(b.scaling, wave),
                bounty == wave_bounty(b.scaling, wave),
                gap == spacing(n as int, b.scaling.spawn_gap, b.scaling.spawn_arc),
                arc == b.scaling.spawn_arc,
                in_order == orderly(gap, b.scaling.spawn_jitter),
                jitter == jitter_of(b, n as int),
                low == negated(jitter),
                self.creeps@ == v.creeps + column(b, wave, n as int, rng0, first, k as int),
                unique(self.creeps@),
                self.next_id == first + k,
                self.rng@ == after_draws(jitter, rng0, k as int),
                events@ == announced + arrivals(first, k as int),
                self.wave == wave,
                self.wave_timer == b.match_rules.wave_interval,
                self.towers == old(self).towers,
                self.players == old(self).players,
                self.lives == old(self).lives,
                self.leaks == old(self).leaks,
                self.seed == old(self).seed,
                self.over == old(self).over,
            decreases lanes - lane,
        {
            let mut i: u32 = 0;
            while i < n
                invariant
                    b == old(self).balance@,
                    m == old(self).map@,
                    v == old(self)@,
                    good(v),
                    self.balance == old(self).balance,
                    self.map == old(self).map,
                    self.map.wf(),
                    first == v.next_id,
                    rng0 == v.rng,
                    wave == v.wave + 1,
                    n >= 1,
                    n == next_per_lane(b, v),
                    m.lanes.len() == lanes,
                    size == next_size(b, m, v),
                    size == n * lanes,
                    first + size <= u32::MAX,
                    lane < lanes,
                    i <= n,
                    k == lane * n + i,
                    hp == wave_hp(b.scaling, wave),
                    speed == wave_speed(b.scaling, wave),
                    bounty == wave_bounty(b.scaling, wave),
                    gap == spacing(n as int, b.scaling.spawn_gap, b.scaling.spawn_arc),
                    arc == b.scaling.spawn_arc,
                    in_order == orderly(gap, b.scaling.spawn_jitter),
                    jitter == jitter_of(b, n as int),
                    low == negated(jitter),
                    self.creeps@ == v.creeps + column(b, wave, n as int, rng0, first, k as int),
                    unique(self.creeps@),
                    self.next_id == first + k,
                    self.rng@ == after_draws(jitter, rng0, k as int),
                    events@ == announced + arrivals(first, k as int),
                    self.wave == wave,
                    self.wave_timer == b.match_rules.wave_interval,
                    self.towers == old(self).towers,
                    self.players == old(self).players,
                    self.lives == old(self).lives,
                    self.leaks == old(self).leaks,
                    self.seed == old(self).seed,
                    self.over == old(self).over,
                decreases n - i,
            {
                proof {
                    // Creep k is the i-th of its lane.
                    assert(lane * n + i < n * lanes) by (nonlinear_arith)
                        requires
                            0 <= lane < lanes,
                            0 <= i < n,
                    ;
                    vstd::arithmetic::div_mod::lemma_fundamental_div_mod_converse(
                        k as int,
                        n as int,
                        lane as int,
                        i as int,
                    );
                    lemma_next_id_is_new(v, self.creeps@, b, wave, n as int, rng0, first, k as int);
                }
                let id = CreepId(self.next_id);
                self.next_id = self.next_id + 1;
                let dist = enter(gap, arc, i, self.rng.range_f32(low, jitter), in_order);
                let creep = Creep {
                    lane: lane_byte(lane),
                    dist,
                    hp,
                    max_hp: hp,
                    base_speed: speed,
                    slow_mult: one(),
                    slow_timer: zero(),
                    bounty,
                    last_hit_by: PlayerKey(0),
                };
                assert(creep == newborn(b, wave, n as int, rng0, k as int));
                self.creeps.push(id, creep);
                events.push(SimEvent::CreepSpawned(id));
                proof {
                    assert(self.creeps@ =~= v.creeps + column(b, wave, n as int, rng0, first, k + 1));
                    assert(events@ =~= announced + arrivals(first, k + 1));
                }
                k = k + 1;
                i = i + 1;
            }
            proof {
                assert((lane + 1) * n == lane * n + n) by (nonlinear_arith);
            }
            lane = lane + 1;
        }
        proof {
            assert(k == size) by (nonlinear_arith)
                requires
                    k == lanes * n,
                    size == n * lanes,
            ;
            assert(self@ =~= wave_started(b, m, v));
            lemma_started_is_good(b, m, v);
            assert(events@ =~= heard + seq![SimEvent::WaveStarted(wave)] + arrivals(first, size));
        }
        true
    }

    /// Run the wave timer down, and start a wave when it expires.
    fn tick_wave(&mut self, dt: Scalar, events: &mut Vec<SimEvent>) -> (ok: bool)
        requires
            old(self).wf(),
        ensures
            final(self).wf(),
            final(self).balance == old(self).balance,
            final(self).map == old(self).map,
            ok == spawn_has_room(old(self).balance@, old(self).map@, old(self)@, dt),
            ok ==> final(self)@ == clock_ticked(old(self).balance@, old(self).map@, old(self)@, dt),
            ok ==> final(events)@ == old(events)@ + clock_events(old(self).balance@, old(self).map@, old(self)@, dt),
    {
        let ghost v = self@;
        let ghost heard = events@;
        self.wave_timer = self.wave_timer.minus(dt);
        assert(self@ =~= SimView { wave_timer: difference(v.wave_timer, dt), ..v });
        if self.wave_timer.gt(zero()) {
            assert(events@ =~= heard + clock_events(old(self).balance@, old(self).map@, v, dt));
            return true;
        }
        let ok = self.start_wave(events);
        proof {
            if ok {
                assert(events@ =~= heard + clock_events(old(self).balance@, old(self).map@, v, dt));
            }
        }
        ok
    }

    /// Run every player's wave-call cooldown down. Match time, not wall-clock
    /// time, so a replay sees the same refusals.
    fn tick_wave_calls(&mut self, dt: Scalar)
        requires
            old(self).wf(),
        ensures
            final(self).wf(),
            final(self).balance == old(self).balance,
            final(self).map == old(self).map,
            final(self)@ == calls_ticked(old(self)@, dt),
    {
        let ghost v = self@;
        let ghost done = calls_ticked(v, dt).players;
        let mut i: usize = 0;
        while i < self.players.len()
            invariant
                v == old(self)@,
                good(v),
                done == calls_ticked(v, dt).players,
                self.balance == old(self).balance,
                self.map == old(self).map,
                self.map.wf(),
                i <= self.players@.len() == v.players.len(),
                unique(self.players@),
                forall|k: int| 0 <= k < i ==> #[trigger] self.players@[k] == done[k],
                forall|k: int| i <= k < v.players.len() ==> #[trigger] self.players@[k] == v.players[k],
                self@ == (SimView { players: self.players@, ..v }),
            decreases v.players.len() - i,
        {
            let (_, p) = self.players.entry(i);
            self.players.set_at(
                i,
                Player {
                    gold: p.gold,
                    kills: p.kills,
                    connected: p.connected,
                    wave_call_cooldown: p.wave_call_cooldown.minus(dt).max(zero()),
                },
            );
            assert(self@ =~= SimView { players: self.players@, ..v });
            i = i + 1;
        }
        assert(self.players@ =~= done);
        assert(self@ =~= calls_ticked(v, dt));
    }

    /// The first phase of a tick: the wave clock, the creeps of any wave that is
    /// due, and the wave-call cooldowns. A wave summoned this tick exists this
    /// tick.
    pub(crate) fn spawn(&mut self, dt: Scalar, events: &mut Vec<SimEvent>) -> (ok: bool)
        requires
            old(self).wf(),
        ensures
            final(self).wf(),
            final(self).balance == old(self).balance,
            final(self).map == old(self).map,
            ok == spawn_has_room(old(self).balance@, old(self).map@, old(self)@, dt),
            ok ==> final(self)@ == spawned(old(self).balance@, old(self).map@, old(self)@, dt),
            ok ==> final(events)@ == old(events)@ + clock_events(old(self).balance@, old(self).map@, old(self)@, dt),
    {
        let ok = self.tick_wave(dt, events);
        self.tick_wave_calls(dt);
        ok
    }
}

/// The low byte of a lane index.
fn lane_byte(lane: usize) -> (r: u8)
    ensures
        r == (lane % 256) as u8,
{
    (lane % 256) as u8
}

pub(crate) proof fn lemma_next_per_lane(b: BalanceView, v: SimView)
    ensures
        next_per_lane(b, v) >= 1,
{
    crate::data::balance::law_a_bigger_lobby_is_attacked_harder(b.scaling, (v.wave + 1) as u32, 1);
    if lobby(v) >= 1 {
        crate::data::balance::law_a_bigger_lobby_is_attacked_harder(b.scaling, (v.wave + 1) as u32, lobby(v));
    }
}

proof fn lemma_next_id_is_new(
    v: SimView,
    creeps: Seq<(CreepId, Creep)>,
    b: BalanceView,
    wave: u32,
    n: int,
    rng: u64,
    first: int,
    k: int,
)
    requires
        good(v),
        first == v.next_id,
        0 <= k,
        first + k <= u32::MAX,
        0 <= first,
        creeps == v.creeps + column(b, wave, n, rng, first, k),
    ensures
        !holds(creeps, CreepId((first + k) as u32)),
{
    let id = CreepId((first + k) as u32);
    lemma_place(creeps, id);
    if holds(creeps, id) {
        let p = crate::table::place_of(creeps, id);
        if p < v.creeps.len() {
            assert(v.creeps[p].0.0 < v.next_id);
        } else {
            assert(creeps[p] == column(b, wave, n, rng, first, k)[p - v.creeps.len()]);
        }
    }
}

proof fn lemma_started_is_good(b: BalanceView, m: MapView, v: SimView)
    requires
        good(v),
        v.next_id >= 0,
        wave_has_room(b, m, v),
        next_size(b, m, v) >= 0,
    ensures
        good(wave_started(b, m, v)),
{
    let done = wave_started(b, m, v);
    let total = next_size(b, m, v);
    let more = column(b, (v.wave + 1) as u32, next_per_lane(b, v), v.rng, v.next_id, total);
    let n = v.creeps.len() as int;
    assert forall|i: int| 0 <= i < done.creeps.len() implies (#[trigger] done.creeps[i]).0.0 < done.next_id by {
        if i < n {
            assert(v.creeps[i].0.0 < v.next_id);
        } else {
            assert(done.creeps[i] == more[i - n]);
        }
    }
    assert forall|i: int, j: int| 0 <= i < j < done.creeps.len() implies (#[trigger] done.creeps[i]).0 != (
    #[trigger] done.creeps[j]).0 by {
        if j >= n {
            assert(done.creeps[j] == more[j - n]);
            if i < n {
                assert(v.creeps[i].0.0 < v.next_id);
            } else {
                assert(done.creeps[i] == more[i - n]);
            }
        } else {
            assert(v.creeps[i].0 != v.creeps[j].0);
        }
    }
}

/// A tick's first phase leaves a state that can be stepped.
pub(crate) proof fn lemma_spawned_is_good(b: BalanceView, m: MapView, v: SimView, dt: Scalar)
    requires
        good(v),
        spawn_has_room(b, m, v, dt),
    ensures
        good(spawned(b, m, v, dt)),
{
    let run = SimView { wave_timer: difference(v.wave_timer, dt), ..v };
    if wave_due(v, dt) {
        lemma_started_is_good(b, m, run);
    }
    let w = clock_ticked(b, m, v, dt);
    let s = spawned(b, m, v, dt);
    assert forall|i: int, j: int| 0 <= i < j < s.players.len() implies (#[trigger] s.players[i]).0 != (
    #[trigger] s.players[j]).0 by {
        assert(w.players[i].0 != w.players[j].0);
    }
}

} // verus!
