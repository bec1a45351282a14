//! The authoritative simulation. Server-only.
//!
//! A plain state machine: `step(dt)` is a function of the state and the time
//! that passed, and nothing in here reads a clock, opens a socket or draws
//! randomness from anywhere but the match's own generator. The same seed and the
//! same intents therefore produce the same match.
//!
//! | Module     | Owns                                                       |
//! |------------|------------------------------------------------------------|
//! | this one   | The state, and the order the phases below run in            |
//! | `waves`    | When a wave starts, who is in it, and who may summon one    |
//! | `combat`   | Creep movement, leaks, and everything a tower's shot does   |
//! | `conduct`  | What a fight does to each tower, creep and purse            |
//! | `economy`  | Every place gold changes hands                              |
//! | `dealings` | What players may do, what it costs, and what it brings     |
//! | `rng`      | The match's seeded generator                                |
//! | `ledger`   | Where creeps come from, and where they go                   |
//! | `laws`     | What holds of a match as a whole                            |
//!
//! A creep enters the board at its lane's spawn point and walks toward one
//! thing: the goal. Reaching it is a **leak**: the creep leaves the match and the
//! match loses a life, and running out of lives loses the match.

use crate::data::balance::{BalanceData, BalanceView, LoseRule};
use crate::data::components::Phase;
use crate::map::{buildable, length, location, LaneView, MapData, MapView};
use crate::order::{less, one, zero};
use crate::scalar::{difference, Scalar};
use crate::sim::combat::{after_fight, fight_events, fight_has_room};
use crate::sim::waves::{clock_events, spawn_has_room, spawned};
use crate::table::{holds, setting, unique, value_of, Ident, Table};
use crate::vector::{IVec2, Vec2};
use std::sync::Arc;
use vstd::prelude::*;

pub mod combat;
pub mod conduct;
pub mod dealings;
pub mod economy;
pub mod laws;
pub mod ledger;
pub mod rng;
pub mod waves;

pub use crate::sim::rng::Rng;

verus! {

/// One creep of a match.
#[derive(Clone, Copy, PartialEq, Eq, Debug, PartialOrd, Ord, Hash, Structural)]
pub struct CreepId(pub u32);

/// Stable identity for a player, within one match. The sim only ever sees this
/// key, never an address, so a player who reconnects is the same player.
#[derive(Clone, Copy, PartialEq, Eq, Debug, Hash, Structural)]
pub struct PlayerKey(pub u64);

impl Ident for CreepId {
    fn same(&self, other: &CreepId) -> (yes: bool) {
        self.0 == other.0
    }
}

impl Ident for PlayerKey {
    fn same(&self, other: &PlayerKey) -> (yes: bool) {
        self.0 == other.0
    }
}

impl Ident for IVec2 {
    fn same(&self, other: &IVec2) -> (yes: bool) {
        self.x == other.x && self.y == other.y
    }
}

/// A creep on the board.
#[derive(Clone, Copy, PartialEq, Eq, Debug, Structural)]
pub struct Creep {
    /// Which lane of the board this creep entered on.
    pub lane: u8,
    /// Distance travelled along that lane. At least the lane's length means the
    /// creep has arrived at the goal and is about to leak.
    pub dist: Scalar,
    pub hp: Scalar,
    pub max_hp: Scalar,
    pub base_speed: Scalar,
    pub slow_mult: Scalar,
    pub slow_timer: Scalar,
    pub bounty: u32,
    pub last_hit_by: PlayerKey,
}

/// A tower on the board.
#[derive(Clone, Copy, PartialEq, Eq, Debug, Structural)]
pub struct Tower {
    pub kind: u8,
    pub level: u8,
    pub owner: PlayerKey,
    pub cooldown: Scalar,
}

/// A player's record.
#[derive(Clone, Copy, PartialEq, Eq, Debug, Structural)]
pub struct Player {
    pub gold: u32,
    pub kills: u32,
    /// Cleared when the player disconnects; their towers stay.
    pub connected: bool,
    /// Seconds until this player may call another wave. Match time rather than
    /// wall-clock time.
    pub wave_call_cooldown: Scalar,
}

/// What happened during one step.
#[derive(Clone, Copy, PartialEq, Eq, Debug, Structural)]
pub enum SimEvent {
    CreepSpawned(CreepId),
    CreepKilled(CreepId),
    /// A creep reached the goal. It is gone, and unless the match ran out of
    /// lives this event is the only trace of it.
    Leaked(CreepId),
    WaveStarted(u32),
    GameOver,
}

// ---------------------------------------------------------------------------
// The model
// ---------------------------------------------------------------------------

/// The state of a match, as a value. The tables are sequences in the order their
/// keys were set.
#[verifier::ext_equal]
pub ghost struct SimView {
    pub creeps: Seq<(CreepId, Creep)>,
    pub towers: Seq<(IVec2, Tower)>,
    pub players: Seq<(PlayerKey, Player)>,
    pub wave: int,
    pub wave_timer: Scalar,
    pub lives: int,
    pub leaks: int,
    pub next_id: int,
    pub seed: u64,
    pub rng: u64,
    pub over: bool,
}

/// The lane an index names; an index past the lanes reads as the first one.
pub open spec fn lane_at(map: MapView, lane: u8) -> LaneView {
    if lane < map.lanes.len() {
        map.lanes[lane as int]
    } else {
        map.lanes[0]
    }
}

/// Where a creep is.
pub open spec fn creep_position(map: MapView, creep: Creep) -> Vec2 {
    location(lane_at(map, creep.lane).points, creep.dist)
}

/// How far a creep still has to walk.
pub open spec fn way_left(map: MapView, creep: Creep) -> Scalar {
    difference(length(lane_at(map, creep.lane).points), creep.dist)
}

/// The factor a creep's speed is multiplied by.
pub open spec fn pace(creep: Creep) -> Scalar {
    if less(zero(), creep.slow_timer) {
        creep.slow_mult
    } else {
        one()
    }
}

/// How many of the first `n` players are connected.
pub open spec fn connected(players: Seq<(PlayerKey, Player)>, n: int) -> int
    decreases n,
{
    if n <= 0 {
        0
    } else {
        connected(players, n - 1) + (if players[n - 1].1.connected {
            1int
        } else {
            0
        })
    }
}

/// Connected players, as the 32 bits they are counted in.
pub open spec fn lobby(v: SimView) -> u32 {
    (connected(v.players, v.players.len() as int) % 0x1_0000_0000) as u32
}

/// Live creeps, as the 32 bits they are counted in.
pub open spec fn alive(v: SimView) -> u32 {
    (v.creeps.len() % 0x1_0000_0000) as u32
}

/// Lanes, as the 32 bits they are counted in.
pub open spec fn lane_total(map: MapView) -> u32 {
    (map.lanes.len() % 0x1_0000_0000) as u32
}

/// Where a match is in its life.
pub open spec fn phase_of_match(v: SimView) -> Phase {
    if v.over {
        Phase::Over
    } else if v.wave > 0 {
        Phase::InMatch
    } else {
        Phase::Waiting
    }
}

/// Every creep's id was handed out before the next one.
pub open spec fn ids_handed_out(v: SimView) -> bool {
    v.next_id >= 0 && forall|i: int| 0 <= i < v.creeps.len() ==> (#[trigger] v.creeps[i]).0.0 < v.next_id
}

/// The state of a match that can be stepped: no creep, tower or player occurs
/// twice.
pub open spec fn good(v: SimView) -> bool {
    unique(v.creeps) && unique(v.towers) && unique(v.players) && ids_handed_out(v)
}

/// The state a match starts in, with these players.
pub open spec fn fresh(b: BalanceView, seed: u64, players: Seq<(PlayerKey, Player)>) -> SimView {
    SimView {
        creeps: Seq::empty(),
        towers: Seq::empty(),
        players,
        wave: 0,
        wave_timer: b.match_rules.first_wave_delay,
        lives: b.match_rules.starting_lives as int,
        leaks: 0,
        next_id: 1,
        seed,
        rng: seed,
        over: false,
    }
}

/// A player at the start of a match.
pub open spec fn at_start(b: BalanceView, player: Player) -> Player {
    Player { gold: b.match_rules.start_gold, kills: 0, wave_call_cooldown: zero(), ..player }
}

/// The state of a rematch: the match starts over, with the players it had.
pub open spec fn rematch(b: BalanceView, v: SimView) -> SimView {
    fresh(b, v.seed, v.players.map_values(|e: (PlayerKey, Player)| (e.0, at_start(b, e.1))))
}

/// The state after a player registers, or registers again.
pub open spec fn joined(b: BalanceView, v: SimView, key: PlayerKey) -> SimView {
    let player = if holds(v.players, key) {
        Player { connected: true, ..value_of(v.players, key) }
    } else {
        Player { gold: b.match_rules.start_gold, kills: 0, connected: true, wave_call_cooldown: zero() }
    };
    SimView { players: setting(v.players, key, player), ..v }
}

/// The state after a player leaves: the record stays.
pub open spec fn left(v: SimView, key: PlayerKey) -> SimView {
    if holds(v.players, key) {
        SimView {
            players: setting(v.players, key, Player { connected: false, ..value_of(v.players, key) }),
            ..v
        }
    } else {
        v
    }
}

/// The match is lost, whichever rule it is played by.
pub open spec fn lost(b: BalanceView, v: SimView) -> bool {
    match b.match_rules.lose_rule {
        LoseRule::Lives => v.lives == 0,
        LoseRule::Overrun => alive(v) > b.match_rules.overrun_cap,
    }
}

/// The state after the lose condition was checked.
pub open spec fn judged(b: BalanceView, v: SimView) -> SimView {
    SimView { over: v.over || lost(b, v), ..v }
}

/// The state of a running match once a tick's creeps have spawned, moved, leaked,
/// been shot at and been reaped; the lose condition is still to be checked.
pub open spec fn played(b: BalanceView, m: MapView, v: SimView, dt: Scalar) -> SimView {
    after_fight(b, m, spawned(b, m, v, dt), dt)
}

/// The state after one tick. A match that is over stays as it is.
pub open spec fn stepped(b: BalanceView, m: MapView, v: SimView, dt: Scalar) -> SimView {
    if v.over {
        v
    } else {
        judged(b, played(b, m, v, dt))
    }
}

/// What one tick announces: the wave, the leaks, the kills, and the end.
pub open spec fn step_events(b: BalanceView, m: MapView, v: SimView, dt: Scalar) -> Seq<SimEvent> {
    let fight = clock_events(b, m, v, dt) + fight_events(b, m, spawned(b, m, v, dt), dt);
    if v.over {
        Seq::empty()
    } else if lost(b, played(b, m, v, dt)) {
        fight.push(SimEvent::GameOver)
    } else {
        fight
    }
}

/// Every counter has room for one tick.
pub open spec fn step_has_room(b: BalanceView, m: MapView, v: SimView, dt: Scalar) -> bool {
    v.over || (spawn_has_room(b, m, v, dt) && fight_has_room(b, m, spawned(b, m, v, dt), dt))
}

// ---------------------------------------------------------------------------
// The state
// ---------------------------------------------------------------------------

/// A match.
pub struct Sim {
    /// The loaded balance tables.
    pub balance: Arc<BalanceData>,
    /// The loaded board: lanes, spawn points and the goal.
    pub map: Arc<MapData>,
    pub creeps: Table<CreepId, Creep>,
    pub towers: Table<IVec2, Tower>,
    pub players: Table<PlayerKey, Player>,
    pub wave: u32,
    pub wave_timer: Scalar,
    /// Lives left, under [`LoseRule::Lives`].
    pub lives: u32,
    /// Creeps that have reached the goal this match.
    pub leaks: u32,
    /// The id of the next creep.
    pub next_id: u32,
    /// The match's seed, kept so a replay can be described by it.
    pub seed: u64,
    /// The sim's own generator. Nothing else may draw randomness.
    pub rng: Rng,
    /// Set once the lose condition is met; only a reset clears it.
    pub over: bool,
}

impl View for Sim {
    type V = SimView;

    open spec fn view(&self) -> SimView {
        SimView {
            creeps: self.creeps@,
            towers: self.towers@,
            players: self.players@,
            wave: self.wave as int,
            wave_timer: self.wave_timer,
            lives: self.lives as int,
            leaks: self.leaks as int,
            next_id: self.next_id as int,
            seed: self.seed,
            rng: self.rng@,
            over: self.over,
        }
    }
}

impl Creep {
    /// Where the creep is.
    pub fn pos(&self, map: &MapData) -> (p: Vec2)
        requires
            map.wf(),
        ensures
            p == creep_position(map@, *self),
    {
        lane_of(map, self.lane).sample(self.dist)
    }

    /// The factor the creep's speed is multiplied by.
    pub fn speed_mult(&self) -> (m: Scalar)
        ensures
            m == pace(*self),
    {
        if self.slow_timer.gt(zero()) {
            self.slow_mult
        } else {
            one()
        }
    }

    /// How far this creep still has to walk, in world units. Zero or less means
    /// it is at the goal.
    pub fn remaining(&self, map: &MapData) -> (d: Scalar)
        requires
            map.wf(),
        ensures
            d == way_left(map@, *self),
    {
        lane_of(map, self.lane).total.minus(self.dist)
    }
}

/// The lane an index names. An index past the lanes is a mistake of the sim
/// rather than something a client can ask for; it reads as the first lane rather
/// than stop the tick.
pub(crate) fn lane_of(map: &MapData, lane: u8) -> (r: &crate::map::Lane)
    requires
        map.wf(),
    ensures
        r@ == lane_at(map@, lane),
        r.wf(),
{
    if (lane as usize) < map.lanes.len() {
        assert(map@.lanes[lane as int] == map.lanes@[lane as int]@);
        &map.lanes[lane as usize]
    } else {
        assert(map@.lanes[0] == map.lanes@[0]@);
        &map.lanes[0]
    }
}

impl Sim {
    /// The state is one that can be stepped, on a board that can be walked.
    pub open spec fn wf(&self) -> bool {
        good(self@) && self.map.wf()
    }

    /// A match on these tables and this board, with nobody in it.
    pub fn new(balance: Arc<BalanceData>, map: Arc<MapData>) -> (sim: Sim)
        requires
            map.wf(),
        ensures
            sim.wf(),
            sim.balance == balance,
            sim.map == map,
            sim@ == fresh(balance@, balance@.match_rules.seed, Seq::empty()),
    {
        let rules = balance.match_rules;
        let sim = Sim {
            balance,
            map,
            creeps: Table::new(),
            towers: Table::new(),
            players: Table::new(),
            wave: 0,
            // Wave 1 arrives promptly rather than after a full interval.
            wave_timer: rules.first_wave_delay,
            lives: rules.starting_lives,
            leaks: 0,
            next_id: 1,
            seed: rules.seed,
            rng: Rng::from_seed(rules.seed),
            over: false,
        };
        assert(sim@ =~= fresh(balance@, balance@.match_rules.seed, Seq::empty()));
        sim
    }

    /// The seed this match was built from.
    pub fn seed(&self) -> (seed: u64)
        ensures
            seed == self@.seed,
    {
        self.seed
    }

    /// How this match is lost.
    pub fn lose_rule(&self) -> (rule: LoseRule)
        ensures
            rule == self.balance@.match_rules.lose_rule,
    {
        self.balance.match_rules.lose_rule
    }

    /// The most creeps that may be alive at once under [`LoseRule::Overrun`].
    pub fn overrun_cap(&self) -> (cap: u32)
        ensures
            cap == self.balance@.match_rules.overrun_cap,
    {
        self.balance.match_rules.overrun_cap
    }

    /// Return the match to its start, for a rematch.
    ///
    /// Everything the match accumulated goes. What is *kept* is who is in the
    /// match: the player records stay, with fresh gold and kills; and the
    /// generator is reseeded, because a fresh match on the same tables should be
    /// the *same* match.
    pub fn reset(&mut self)
        requires
            old(self).wf(),
        ensures
            final(self).wf(),
            final(self).balance == old(self).balance,
            final(self).map == old(self).map,
            final(self)@ == rematch(old(self).balance@, old(self)@),
    {
        let ghost b = self.balance@;
        let ghost before = self.players@;
        let ghost done = before.map_values(|e: (PlayerKey, Player)| (e.0, at_start(b, e.1)));
        let rules = self.balance.match_rules;
        self.creeps.clear();
        self.towers.clear();
        self.wave = 0;
        self.wave_timer = rules.first_wave_delay;
        self.lives = rules.starting_lives;
        self.leaks = 0;
        self.next_id = 1;
        self.rng = Rng::from_seed(self.seed);
        self.over = false;
        let mut i: usize = 0;
        while i < self.players.len()
            invariant
                b == old(self).balance@,
                rules == b.match_rules,
                before == old(self).players@,
                done == before.map_values(|e: (PlayerKey, Player)| (e.0, at_start(b, e.1))),
                i <= self.players@.len() == before.len(),
                unique(self.players@),
                forall|k: int| 0 <= k < i ==> #[trigger] self.players@[k] == done[k],
                forall|k: int| i <= k < before.len() ==> #[trigger] self.players@[k] == before[k],
                self.balance == old(self).balance,
                self.map == old(self).map,
                self.creeps@ == Seq::<(CreepId, Creep)>::empty(),
                self.towers@ == Seq::<(IVec2, Tower)>::empty(),
                self.wave == 0,
                self.wave_timer == rules.first_wave_delay,
                self.lives == rules.starting_lives,
                self.leaks == 0,
                self.next_id == 1,
                self.seed == old(self).seed,
                self.rng@ == old(self).seed,
                !self.over,
            decreases before.len() - i,
        {
            let (_, player) = self.players.entry(i);
            self.players.set_at(
                i,
                Player {
                    gold: rules.start_gold,
                    kills: 0,
                    connected: player.connected,
                    wave_call_cooldown: zero(),
                },
            );
            i = i + 1;
        }
        assert(self.players@ =~= done);
        assert(self@ =~= rematch(b, old(self)@));
    }

    /// Where the match is in its life.
    pub fn phase(&self) -> (phase: Phase)
        ensures
            phase == phase_of_match(self@),
    {
        if self.over {
            Phase::Over
        } else if self.wave > 0 {
            Phase::InMatch
        } else {
            Phase::Waiting
        }
    }

    /// Players in the match. The HUD's lobby size.
    pub fn players_connected(&self) -> (n: u32)
        ensures
            n == lobby(self@),
    {
        let mut n: usize = 0;
        let mut i: usize = 0;
        while i < self.players.len()
            invariant
                i <= self.players@.len(),
                n == connected(self.players@, i as int),
                n <= i,
            decreases self.players@.len() - i,
        {
            let (_, player) = self.players.entry(i);
            if player.connected {
                n = n + 1;
            }
            i = i + 1;
        }
        low_bits(n)
    }

    /// Creeps on the board.
    pub fn creeps_alive(&self) -> (n: u32)
        ensures
            n == alive(self@),
    {
        low_bits(self.creeps.len())
    }

    /// Register (or re-register) a player. Idempotent, so a reconnect keeps the
    /// same towers and gold.
    pub fn add_player(&mut self, key: PlayerKey)
        requires
            old(self).wf(),
        ensures
            final(self).wf(),
            final(self).balance == old(self).balance,
            final(self).map == old(self).map,
            final(self)@ == joined(old(self).balance@, old(self)@, key),
    {
        let gold: u32 = self.balance.match_rules.start_gold;
        let player = match self.players.get(&key) {
            Some(p) => Player {
                gold: p.gold,
                kills: p.kills,
                connected: true,
                wave_call_cooldown: p.wave_call_cooldown,
            },
            None => Player { gold, kills: 0, connected: true, wave_call_cooldown: zero() },
        };
        self.players.insert(key, player);
        assert(self@ =~= joined(old(self).balance@, old(self)@, key));
    }

    /// A player leaves. The record stays, and so do the towers.
    pub fn remove_player(&mut self, key: PlayerKey)
        requires
            old(self).wf(),
        ensures
            final(self).wf(),
            final(self).balance == old(self).balance,
            final(self).map == old(self).map,
            final(self)@ == left(old(self)@, key),
    {
        if let Some(p) = self.players.get(&key) {
            self.players.insert(
                key,
                Player {
                    gold: p.gold,
                    kills: p.kills,
                    connected: false,
                    wave_call_cooldown: p.wave_call_cooldown,
                },
            );
        }
        assert(self@ =~= left(old(self)@, key));
    }

    /// A tower may stand on this cell.
    pub fn is_buildable(&self, cell: IVec2) -> (yes: bool)
        requires
            self.wf(),
        ensures
            yes == buildable(self.map@, cell),
    {
        self.map.is_buildable(cell)
    }
}

impl Sim {
    /// One tick.
    ///
    /// The order of the phases *is* the contract:
    ///
    ///   1. wave bookkeeping, so a wave summoned this tick exists this tick;
    ///   2. the creeps that exist, moved;
    ///   3. the creeps that arrived, leaked -- before any tower fires, so a
    ///      creep that reaches the goal this tick cannot also be shot;
    ///   4. the towers, firing;
    ///   5. the bills, paid -- a creep killed this tick is paid for this tick;
    ///   6. the lose condition, last, so it sees the tick's full result.
    pub fn step(&mut self, dt: Scalar) -> (events: Vec<SimEvent>)
        requires
            old(self).wf(),
            step_has_room(old(self).balance@, old(self).map@, old(self)@, dt),
        ensures
            final(self).wf(),
            final(self).balance == old(self).balance,
            final(self).map == old(self).map,
            final(self)@ == stepped(old(self).balance@, old(self).map@, old(self)@, dt),
            events@ == step_events(old(self).balance@, old(self).map@, old(self)@, dt),
    {
        match self.try_step(dt) {
            Some(events) => events,
            None => Vec::new(),
        }
    }

    /// One tick, or nothing where a counter -- creep ids, waves, leaks, kills or
    /// gold -- has no room for it. A match whose tick came to nothing is left
    /// part of the way through it, and cannot go on.
    pub fn try_step(&mut self, dt: Scalar) -> (r: Option<Vec<SimEvent>>)
        requires
            old(self).wf(),
        ensures
            final(self).wf(),
            final(self).balance == old(self).balance,
            final(self).map == old(self).map,
            (r is Some) == step_has_room(old(self).balance@, old(self).map@, old(self)@, dt),
            r matches Some(events) ==> {
                &&& final(self)@ == stepped(old(self).balance@, old(self).map@, old(self)@, dt)
                &&& events@ == step_events(old(self).balance@, old(self).map@, old(self)@, dt)
            },
    {
        let mut events: Vec<SimEvent> = Vec::new();
        if self.over {
            return Some(events);
        }
        let ghost b = self.balance@;
        let ghost m = self.map@;
        let ghost v = self@;
        if !self.spawn(dt, &mut events) {
            return None;
        }
        if !self.fight(dt, &mut events) {
            return None;
        }
        assert(!self.over) by {
            assert(self@.over == v.over);
        }
        self.check_lose(&mut events);
        assert(events@ =~= step_events(b, m, v, dt));
        Some(events)
    }

    /// The lose condition, whichever rule the match is playing: creeps that
    /// reached the goal have used up the lives, or too many creeps are alive at
    /// once.
    fn check_lose(&mut self, events: &mut Vec<SimEvent>)
        requires
            old(self).wf(),
            !old(self).over,
        ensures
            final(self).wf(),
            final(self).balance == old(self).balance,
            final(self).map == old(self).map,
            final(self)@ == judged(old(self).balance@, old(self)@),
            final(events)@ == (if lost(old(self).balance@, old(self)@) {
                old(events)@.push(SimEvent::GameOver)
            } else {
                old(events)@
            }),
    {
        let is_lost = match self.lose_rule() {
            LoseRule::Lives => self.lives == 0,
            LoseRule::Overrun => self.creeps_alive() > self.overrun_cap(),
        };
        if is_lost {
            self.over = true;
            events.push(SimEvent::GameOver);
        }
        assert(self@ =~= judged(old(self).balance@, old(self)@));
    }
}

/// The low 32 bits of a count.
pub(crate) fn low_bits(n: usize) -> (r: u32)
    ensures
        r == (n as int % 0x1_0000_0000) as u32,
{
    let wide: u64 = n as u64;
    assert(wide as u32 == (wide % 0x1_0000_0000) as u32) by (bit_vector);
    #[verifier::truncate]
    let r: u32 = wide as u32;
    r
}

} // verus!
