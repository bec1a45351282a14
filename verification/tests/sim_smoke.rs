//! The headless simulation harness, and the tests that use it.
//!
//! It builds a `Sim` with no window and no socket, drives it with a fixed `dt`,
//! and asserts on both the resulting state and the events of each individual
//! tick. Every number a test asserts on is read back from the tables rather than
//! repeated as a literal, so a re-tune changes the expected value in one place.

use greentd::data::balance::canonical::fnv1a_64;
use greentd::data::balance::{
    BalanceData, CreepDef, DifficultyDef, GameModeDef, LoseRule, MatchRules, TowerDef, WaveScaling, WaveTable,
};
use greentd::data::components::Phase;
use greentd::data::reject::Reject;
use greentd::map::{GoalDef, LaneDef, MapData, MapDef};
use greentd::scalar::Scalar;
use greentd::sim::waves::{column_gap, column_length};
use greentd::sim::{Creep, CreepId, Player, PlayerKey, Rng, Sim, SimEvent, Tower};
use greentd::vector::{IVec2, Vec2};
use std::sync::Arc;

/// One simulation tick. The server runs at 30 Hz; the sim itself only requires
/// that `dt` is fixed.
const TICK: f32 = 1.0 / 30.0;

fn s(x: f32) -> Scalar {
    Scalar { bits: x.to_bits() }
}

fn f(x: Scalar) -> f32 {
    f32::from_bits(x.bits)
}

/// A tower family that is sold for these numbers.
fn tower(key: &str, cost: u32, range: f32, damage: f32, cooldown: f32) -> TowerDef {
    TowerDef {
        key: key.to_string(),
        name: key.to_uppercase(),
        cost,
        range: s(range),
        damage: s(damage),
        cooldown: s(cooldown),
        splash: s(0.0),
        slow: s(1.0),
        damage_per_level: s(0.45),
        range_per_level: s(0.04),
        slow_duration: s(0.0),
        upgrade_base_cost: cost,
        upgrade_growth: s(0.5),
        next: None,
    }
}

/// A full set of tables.
fn tables() -> BalanceData {
    let mut cannon = tower("cannon", 60, 420.0, 30.0, 1.5);
    cannon.splash = s(120.0);
    let mut frost = tower("frost", 40, 380.0, 4.0, 1.0);
    frost.slow = s(0.6);
    frost.slow_duration = s(1.5);
    let creep = |key: &str| CreepDef {
        key: key.to_string(),
        name: key.to_uppercase(),
        hp_mult: s(1.0),
        speed_mult: s(1.0),
        bounty_mult: s(1.0),
    };
    BalanceData {
        match_rules: MatchRules {
            start_gold: 200,
            overrun_cap: 100,
            lose_rule: LoseRule::Lives,
            starting_lives: 60,
            wave_interval: s(20.0),
            first_wave_delay: s(5.0),
            call_wave_cooldown: s(8.0),
            sell_refund_percent: 75,
            seed: 0x5eed,
        },
        towers: vec![tower("basic", 20, 350.0, 10.0, 0.5), cannon, frost],
        creeps: vec![creep("grunt"), creep("runner")],
        waves: WaveTable {
            scaling: WaveScaling {
                hp_base: s(30.0),
                hp_growth: s(0.2),
                speed_base: s(120.0),
                speed_growth: s(2.0),
                bounty_base: s(2.0),
                bounty_per_wave: s(0.25),
                count_base: s(1.0),
                count_per_wave: s(0.5),
                spawn_jitter: s(0.45),
                spawn_gap: s(80.0),
                spawn_arc: s(1600.0),
            },
            waves: vec![],
            max_wave: None,
        },
        difficulties: vec![DifficultyDef {
            key: "normal".to_string(),
            name: "Normal".to_string(),
            hp_mult: s(1.0),
            speed_mult: s(1.0),
            bounty_mult: s(1.0),
        }],
        modes: vec![GameModeDef {
            key: "long".to_string(),
            name: "Long".to_string(),
            short_game: false,
        }],
    }
}

/// The hash of a set of tables: of its canonical form, printed.
fn hash(data: &BalanceData) -> u64 {
    let mut canonical = data.clone();
    canonical.normalise();
    fnv1a_64(format!("{canonical:?}").as_bytes())
}

/// The tables a test starts from.
fn shipped_balance() -> Arc<BalanceData> {
    let data = tables();
    data.validate().expect("the tables are sound");
    Arc::new(data)
}

fn p(x: f32, y: f32) -> Vec2 {
    Vec2::new(s(x), s(y))
}

/// A board of ten lanes that funnel into one goal in the middle of its lower
/// edge, each over five thousand units long.
fn shipped_map() -> Arc<MapData> {
    let lane = |i: i32| {
        let x = (i - 5) as f32 * 600.0 + 300.0;
        LaneDef {
            name: format!("Lane {i}"),
            spawn: p(x, 2900.0),
            waypoints: vec![p(x, 2900.0), p(x, 200.0), p(0.0, -1200.0), p(0.0, -2900.0)],
        }
    };
    let def = MapDef {
        id: "funnel".to_string(),
        name: "Funnel".to_string(),
        tiles_x: 30,
        tiles_y: 30,
        tile_size: s(200.0),
        path_clearance: s(150.0),
        goal: GoalDef {
            name: "END".to_string(),
            x: s(0.0),
            y: s(-2900.0),
            half_w: s(100.0),
            half_h: s(100.0),
        },
        lanes: (0..10).map(lane).collect(),
        zones: vec![],
    };
    Arc::new(MapData::from_def(def).expect("the board is valid"))
}

/// A deliberately tiny board: two lanes, 2100 units long, ending at one goal.
///
/// Short lanes make "does a creep that reaches the goal cost a life" a question
/// about the rule rather than about patience.
fn short_board() -> Arc<MapData> {
    let lane = |name: &str, x: f32| LaneDef {
        name: name.to_string(),
        spawn: p(x, 700.0),
        waypoints: vec![p(x, 700.0), p(x, -700.0), p(0.0, -700.0)],
    };
    let def = MapDef {
        id: "short".to_string(),
        name: "Short".to_string(),
        tiles_x: 16,
        tiles_y: 16,
        tile_size: s(100.0),
        path_clearance: s(95.0),
        goal: GoalDef {
            name: "END".to_string(),
            x: s(0.0),
            y: s(-700.0),
            half_w: s(100.0),
            half_h: s(100.0),
        },
        lanes: vec![lane("Left", -700.0), lane("Right", 700.0)],
        zones: vec![],
    };
    Arc::new(MapData::from_def(def).expect("the short board is valid"))
}

/// Every creep on the board, in the order they entered.
fn creeps(sim: &Sim) -> Vec<(CreepId, Creep)> {
    (0..sim.creeps.len()).map(|i| sim.creeps.entry(i)).collect()
}

fn players(sim: &Sim) -> Vec<(PlayerKey, Player)> {
    (0..sim.players.len()).map(|i| sim.players.entry(i)).collect()
}

/// Change a creep by hand.
fn place(sim: &mut Sim, id: CreepId, change: impl FnOnce(&mut Creep)) {
    let mut creep = sim.creeps.get(&id).expect("the creep exists");
    change(&mut creep);
    sim.creeps.insert(id, creep);
}

// ---------------------------------------------------------------------------
// Harness
// ---------------------------------------------------------------------------

/// Everything a test needs to drive a match by hand.
struct Harness {
    sim: Sim,
    tick: f32,
}

impl Harness {
    fn new() -> Self {
        Self::with_balance(shipped_balance())
    }

    /// A match running on modified tables, on the shipped board. Used to make
    /// the retuned numbers observable without waiting for a real match.
    fn with_balance(balance: Arc<BalanceData>) -> Self {
        Self {
            sim: Sim::new(balance, shipped_map()),
            tick: TICK,
        }
    }

    /// A match on a modified board and modified tables: the tests about leaks
    /// want a short lane and a known number of lives.
    fn with_board(balance: Arc<BalanceData>, map: Arc<MapData>) -> Self {
        Self {
            sim: Sim::new(balance, map),
            tick: TICK,
        }
    }

    /// One lane's creeps' distances along it, sorted. The arrival shape of a
    /// wave is a property of a lane, so this is the unit the tests measure.
    fn lane_distances(sim: &Sim, lane: u8) -> Vec<f32> {
        let mut dists: Vec<f32> = creeps(sim)
            .iter()
            .filter(|(_, c)| c.lane == lane)
            .map(|(_, c)| f(c.dist))
            .collect();
        dists.sort_by(|a, b| a.partial_cmp(b).expect("no NaN distances"));
        dists
    }

    /// A harness with `ids` joined, mirroring what the server does on connect.
    fn with_players(ids: &[u64]) -> Self {
        let mut harness = Self::new();
        for id in ids {
            harness.sim.add_player(player(*id));
        }
        harness
    }

    /// One tick, and the events that tick produced.
    fn step(&mut self) -> Vec<SimEvent> {
        self.sim.step(s(self.tick))
    }

    /// `ticks` ticks, and every event produced along the way.
    fn advance(&mut self, ticks: u32) -> Vec<SimEvent> {
        let mut events = Vec::new();
        for _ in 0..ticks {
            events.extend(self.step());
        }
        events
    }

    /// Step until `ready` holds, returning how many ticks that took and every
    /// event seen on the way. Panics rather than looping forever.
    fn advance_until(&mut self, limit: u32, ready: impl Fn(&Sim) -> bool) -> (u32, Vec<SimEvent>) {
        let mut events = Vec::new();
        for ticks in 0..limit {
            if ready(&self.sim) {
                return (ticks, events);
            }
            events.extend(self.step());
        }
        panic!("condition not met within {limit} ticks");
    }
}

fn player(id: u64) -> PlayerKey {
    PlayerKey(id)
}

fn gold(sim: &Sim, who: PlayerKey) -> u32 {
    sim.players.get(&who).map(|p| p.gold).unwrap_or_default()
}

fn kills(sim: &Sim, who: PlayerKey) -> u32 {
    sim.players.get(&who).map(|p| p.kills).unwrap_or_default()
}

fn count_matching(events: &[SimEvent], pred: impl Fn(&SimEvent) -> bool) -> usize {
    events.iter().filter(|event| pred(event)).count()
}

/// A buildable cell with a lane cell for a neighbour, so a tower placed there
/// actually has something to shoot at.
fn cell_beside_the_path(sim: &Sim) -> IVec2 {
    let map = &sim.map;
    for y in 0..map.tiles_y {
        for x in 0..map.tiles_x {
            let cell = IVec2 { x, y };
            if !sim.is_buildable(cell) {
                continue;
            }
            let neighbours = [
                IVec2 { x: x + 1, y },
                IVec2 { x: x - 1, y },
                IVec2 { x, y: y + 1 },
                IVec2 { x, y: y - 1 },
            ];
            if neighbours
                .iter()
                .any(|n| map.in_bounds(*n) && !sim.is_buildable(*n))
            {
                return cell;
            }
        }
    }
    panic!("the board has no buildable cell beside a lane");
}

// ---------------------------------------------------------------------------
// The harness itself
// ---------------------------------------------------------------------------

#[test]
fn a_sim_can_be_built_and_stepped_with_no_app() {
    let mut harness = Harness::new();

    assert_eq!(harness.sim.wave, 0);
    assert_eq!(harness.sim.creeps_alive(), 0);
    assert!(harness.sim.players.is_empty());

    let events = harness.advance(1);
    assert!(events.is_empty(), "nothing happens on the very first tick");
}

#[test]
fn a_wave_spawns_after_the_configured_delay() {
    let mut harness = Harness::new();
    let delay = f(harness.sim.balance.match_rules.first_wave_delay);
    let expected_ticks = (delay / TICK).ceil() as u32;

    let (ticks, events) = harness.advance_until(600, |sim| sim.wave == 1);

    assert_eq!(harness.sim.wave, 1, "wave 1 must have started");
    assert_eq!(
        count_matching(&events, |e| matches!(e, SimEvent::WaveStarted(1))),
        1,
        "exactly one WaveStarted event"
    );

    let spawned = harness.sim.creeps_alive();
    assert_eq!(
        spawned,
        harness.sim.balance.creeps_per_lane(1, 1) * harness.sim.lane_count(),
        "a wave puts the table's count on every lane"
    );
    assert_eq!(
        harness.sim.creeps_per_lane(),
        harness.sim.balance.creeps_per_lane(1, 1),
        "and `creeps_per_lane` agrees with the table"
    );
    assert_eq!(
        count_matching(&events, |e| matches!(e, SimEvent::CreepSpawned(_))),
        spawned as usize
    );

    // One tick of slack: the timer is stepped before it is compared, so float
    // accumulation decides whether the wave lands on tick N or N + 1.
    assert!(
        ticks.abs_diff(expected_ticks) <= 1,
        "wave 1 arrived at tick {ticks}, the table implies about {expected_ticks}"
    );
}

#[test]
fn spawned_creeps_use_the_wave_table() {
    let mut harness = Harness::new();
    harness.advance_until(600, |sim| sim.wave == 1);

    let hp = harness.sim.balance.creep_hp(1);
    let speed = harness.sim.balance.creep_speed(1);
    let bounty = harness.sim.balance.creep_bounty(1);

    assert!(!harness.sim.creeps.is_empty());
    for (_, creep) in creeps(&harness.sim) {
        assert_eq!(creep.hp, hp);
        assert_eq!(creep.max_hp, hp);
        assert_eq!(creep.base_speed, speed);
        assert_eq!(creep.bounty, bounty);
    }
}

#[test]
fn a_tower_kills_a_creep_and_credits_its_owner() {
    // On the short board, and with fragmentary creeps, on purpose. This test is
    // about where the bounty goes: on the real board a creep takes a minute to
    // reach the first tower worth building, which makes the test slow and makes
    // it about the board rather than about the economy.
    let mut tuned = (*shipped_balance()).clone();
    tuned.waves.scaling.hp_base = s(10.0);
    tuned.waves.scaling.hp_growth = s(0.0);

    let who = player(7);
    let mut harness = Harness::with_board(Arc::new(tuned), short_board());
    harness.sim.add_player(who);

    let start_gold = harness.sim.balance.match_rules.start_gold;
    let cost = harness
        .sim
        .balance
        .tower(0)
        .map(|tower| tower.cost)
        .expect("kind 0 is in the tower table");
    let bounty = harness.sim.balance.creep_bounty(1);

    let cell = cell_beside_the_path(&harness.sim);
    harness
        .sim
        .try_build(who, cell, 0)
        .expect("the first build must be accepted");
    assert_eq!(gold(&harness.sim, who), start_gold - cost);

    // A lap takes about 50 s, so allow generous headroom for the creep to come
    // into range.
    let (_, events) = harness.advance_until(60 * 30, |sim| kills(sim, who) > 0);

    assert_eq!(kills(&harness.sim, who), 1);
    assert_eq!(
        gold(&harness.sim, who),
        start_gold - cost + bounty,
        "the bounty goes to the tower's owner"
    );
    assert_eq!(
        count_matching(&events, |e| matches!(e, SimEvent::CreepKilled(_))),
        1
    );
}

#[test]
fn exceeding_the_overrun_cap_ends_the_match() {
    // The shipped rule is `lives`; this test is about the other lineage,
    // so it asks for it rather than relying on the default.
    let mut tuned = (*shipped_balance()).clone();
    tuned.match_rules.lose_rule = LoseRule::Overrun;
    tuned.match_rules.overrun_cap = 3;
    let mut harness = Harness::with_balance(Arc::new(tuned));

    let (_, events) = harness.advance_until(600, |sim| sim.over);

    assert!(harness.sim.over, "the match must be over");
    assert_eq!(
        count_matching(&events, |e| matches!(e, SimEvent::GameOver)),
        1,
        "game over is announced once"
    );
    assert!(
        harness.sim.creeps_alive() > harness.sim.overrun_cap(),
        "the cap is what ended it"
    );
    assert!(harness.step().is_empty(), "a finished match does not step");
}

#[test]
fn a_reset_gives_a_lost_match_back() {
    // A shrunken cap and a fast clock, so a defeat and a rematch arrive in
    // seconds rather than in a match. Wave 1 is four creeps and wave 2 is five,
    // so a cap of four lets the first wave through and ends it on the second --
    // which is also what makes the rematch's first wave survivable.
    let mut tuned = (*shipped_balance()).clone();
    tuned.match_rules.lose_rule = LoseRule::Overrun;
    // Between wave 1 and wave 2: a wave is one creep per lane per player, and
    // the board has ten lanes, so a cap of four would end the match on the very
    // first wave.
    tuned.match_rules.overrun_cap = 12;
    tuned.match_rules.first_wave_delay = s(0.1);
    tuned.match_rules.wave_interval = s(0.5);
    let mut harness = Harness::with_balance(Arc::new(tuned));
    harness.sim.add_player(player(7));

    harness.advance_until(600, |sim| sim.over);
    assert!(harness.sim.over, "drive it to a defeat first");
    assert!(
        !harness.sim.creeps.is_empty(),
        "the board was not empty when the match ended"
    );

    let rules = harness.sim.balance.match_rules;
    harness.sim.reset();

    assert!(
        !harness.sim.over,
        "a reset is a match that can be lost again, not a terminal flag"
    );
    assert_eq!(harness.sim.wave, 0, "the wave counter starts over");
    assert_eq!(
        harness.sim.wave_timer, rules.first_wave_delay,
        "the wave clock is reset, not left where the defeat stopped it"
    );
    assert!(harness.sim.creeps.is_empty(), "the board is cleared");
    assert!(harness.sim.towers.is_empty(), "the towers go with it");

    let reset_player = harness
        .sim
        .players
        .get(&player(7))
        .expect("a reset keeps the players who were in the match");
    assert_eq!(
        reset_player.gold, rules.start_gold,
        "gold is back to the starting value"
    );
    assert_eq!(reset_player.kills, 0, "so are the kills");
    assert!(
        reset_player.connected,
        "and the player is still in the match"
    );

    // And it is a match again: a fresh wave arrives, on a board with nothing on
    // it, without the sim having to be rebuilt.
    harness.advance_until(600, |sim| sim.wave == 1);
    assert_eq!(
        harness.sim.creeps_alive(),
        harness.sim.wave_size(),
        "the rematch's first wave is a whole wave"
    );
    assert!(
        harness.sim.creeps_alive() <= harness.sim.overrun_cap(),
        "the rematch is not over before it starts"
    );
}

#[test]
fn a_reset_match_begins_like_a_fresh_one() {
    // Non-zero jitter, so the generator is observable in the creeps' positions.
    let mut tuned = (*shipped_balance()).clone();
    tuned.waves.scaling.spawn_jitter = s(0.25);
    let mut harness = Harness::with_balance(Arc::new(tuned));
    harness.sim.add_player(player(1));

    // Play for a while, so the generator is somewhere other than its seed.
    harness.advance(200);
    harness.sim.reset();

    let mut after_reset = Harness::with_balance(harness.sim.balance.clone());
    after_reset.sim.add_player(player(1));
    let mut fresh = Harness::with_balance(harness.sim.balance.clone());
    fresh.sim.add_player(player(1));

    let (reset_ticks, _) = after_reset.advance_until(600, |sim| sim.wave == 1);
    let (fresh_ticks, _) = fresh.advance_until(600, |sim| sim.wave == 1);
    assert_eq!(
        reset_ticks, fresh_ticks,
        "both matches start at the same beat"
    );

    let positions = |harness: &Harness| {
        let mut dists: Vec<f32> = creeps(&harness.sim).iter().map(|(_, c)| f(c.dist)).collect();
        dists.sort_by(f32::total_cmp);
        dists
    };
    assert_eq!(
        positions(&after_reset),
        positions(&fresh),
        "a reseeded match is a fresh match, not a continued one"
    );
}
#[test]
fn the_sim_reads_the_tables_rather_than_a_const() {
    let mut tuned = (*shipped_balance()).clone();
    tuned.waves.scaling.hp_base = s(7.0);
    tuned.waves.scaling.speed_base = s(100.0);
    tuned.waves.scaling.bounty_base = s(3.0);
    tuned.match_rules.wave_interval = s(1.0);
    let mut harness = Harness::with_balance(Arc::new(tuned));

    harness.advance_until(600, |sim| sim.wave == 1);

    assert!(!harness.sim.creeps.is_empty());
    for (_, creep) in creeps(&harness.sim) {
        assert_eq!(f(creep.hp), 7.0, "hp comes from the in-memory table");
        assert_eq!(f(creep.base_speed), 100.0);
        assert_eq!(creep.bounty, 3);
    }
    assert_eq!(
        f(harness.sim.wave_timer), 1.0,
        "the wave interval comes from the in-memory table"
    );
}

// ---------------------------------------------------------------------------
// Ownership and identity
// ---------------------------------------------------------------------------

#[test]
fn a_foreign_player_cannot_upgrade_or_sell_someone_elses_tower() {
    let (a, b) = (player(1), player(2));
    let mut harness = Harness::with_players(&[1, 2]);

    let cell = cell_beside_the_path(&harness.sim);
    harness.sim.try_build(a, cell, 0).expect("the first build");

    let a_gold = gold(&harness.sim, a);
    let b_gold = gold(&harness.sim, b);
    let level = harness
        .sim
        .towers
        .get(&cell)
        .map(|tower| tower.level)
        .expect("A's tower exists");

    assert_eq!(harness.sim.try_upgrade(b, cell), Err(Reject::NotOwner));
    assert_eq!(harness.sim.try_sell(b, cell), Err(Reject::NotOwner));

    // Nothing at all may have changed on the rejected path.
    assert_eq!(gold(&harness.sim, a), a_gold, "A's gold is untouched");
    assert_eq!(gold(&harness.sim, b), b_gold, "B minted nothing");
    assert_eq!(
        harness.sim.towers.get(&cell).map(|tower| tower.level),
        Some(level),
        "the tower was not upgraded"
    );
    assert!(
        harness.sim.towers.contains_key(&cell),
        "the tower was not sold"
    );
}

#[test]
fn selling_pays_the_owner_the_table_refund() {
    let who = player(1);
    let mut harness = Harness::with_players(&[1]);
    let start_gold = harness.sim.balance.match_rules.start_gold;

    let cell = cell_beside_the_path(&harness.sim);
    harness
        .sim
        .try_build(who, cell, 0)
        .expect("the first build");

    let (kind, level) = {
        let tower = harness.sim.towers.get(&cell).expect("the tower exists");
        (tower.kind, tower.level)
    };
    let (cost, refund) = {
        let tower = harness
            .sim
            .balance
            .tower(kind)
            .expect("kind 0 is in the table");
        (tower.cost, harness.sim.balance.sell_refund(tower, level))
    };

    harness.sim.try_sell(who, cell).expect("the owner may sell");
    assert!(harness.sim.towers.is_empty());
    assert_eq!(
        gold(&harness.sim, who),
        start_gold - cost + refund,
        "the sale is cost minus the table's refund"
    );
}

#[test]
fn a_command_from_an_unregistered_key_changes_nothing() {
    let mut harness = Harness::with_players(&[1]);
    let stranger = player(999);
    let cell = cell_beside_the_path(&harness.sim);

    let players_before = harness.sim.players.len();
    let gold_before = gold(&harness.sim, player(1));

    assert_eq!(
        harness.sim.try_build(stranger, cell, 0),
        Err(Reject::NotInMatch)
    );
    assert_eq!(
        harness.sim.try_upgrade(stranger, cell),
        Err(Reject::NotInMatch)
    );
    assert_eq!(
        harness.sim.try_sell(stranger, cell),
        Err(Reject::NotInMatch)
    );
    assert_eq!(harness.sim.call_wave(stranger), Err(Reject::NotInMatch));

    assert_eq!(
        harness.sim.players.len(),
        players_before,
        "no player record may be minted for an unknown key"
    );
    assert!(!harness.sim.players.contains_key(&stranger));
    assert!(harness.sim.towers.is_empty(), "no tower was built");
    assert_eq!(gold(&harness.sim, player(1)), gold_before);
}

#[test]
fn no_intent_handler_produces_a_zero_gold_player() {
    let mut harness = Harness::with_players(&[1]);
    let stranger = player(999);
    let start_gold = harness.sim.balance.match_rules.start_gold;
    let kinds = harness.sim.balance.tower_kind_count();
    let cell = cell_beside_the_path(&harness.sim);

    // Every kind, including one past the end of the table, from a key that was
    // never registered.
    for kind in 0..=kinds {
        let _ = harness.sim.try_build(stranger, cell, kind);
        let _ = harness.sim.try_upgrade(stranger, cell);
        let _ = harness.sim.try_sell(stranger, cell);
        let _ = harness.sim.call_wave(stranger);
    }

    assert_eq!(harness.sim.players.len(), 1, "only the registered player");
    for (key, record) in players(&harness.sim) {
        assert_eq!(record.gold, start_gold, "{key:?} has the table's gold");
    }
}

// ---------------------------------------------------------------------------
// Call wave
// ---------------------------------------------------------------------------

#[test]
fn a_player_cannot_call_two_waves_inside_the_cooldown() {
    let who = player(1);
    let mut harness = Harness::with_players(&[1]);
    let cooldown = f(harness.sim.balance.match_rules.call_wave_cooldown);
    assert!(
        cooldown > 0.0,
        "the table must give the cooldown a positive value for this test to mean anything"
    );

    // The first call is accepted, and zeroes the timer so the next `step`
    // starts the wave.
    harness.advance(1);
    harness
        .sim
        .call_wave(who)
        .expect("the first call is allowed");
    assert_eq!(f(harness.sim.wave_timer), 0.0);

    let events = harness.step();
    assert_eq!(
        count_matching(&events, |e| matches!(e, SimEvent::WaveStarted(1))),
        1,
        "the called wave is wave 1"
    );
    let armed = f(harness.sim.wave_timer);
    assert!(
        armed > 0.0,
        "starting a wave re-arms the timer from the table, not from a literal"
    );

    // The second call, inside the cooldown window, is refused and changes
    // nothing at all: the timer keeps the value the wave just gave it.
    assert_eq!(harness.sim.call_wave(who), Err(Reject::RateLimited));
    assert_eq!(
        f(harness.sim.wave_timer), armed,
        "a refused call must not touch the wave timer"
    );

    // Once the cooldown has run out the same player may call again.
    let ticks = (cooldown / TICK).ceil() as u32 + 2;
    harness.advance(ticks);
    harness
        .sim
        .call_wave(who)
        .expect("the cooldown has expired");
    assert_eq!(
        f(harness.sim.wave_timer), 0.0,
        "an accepted call zeroes the timer again"
    );
}

#[test]
fn one_player_cannot_call_waves_for_another() {
    let (a, b) = (player(1), player(2));
    let mut harness = Harness::with_players(&[1, 2]);
    let cooldown = f(harness.sim.balance.match_rules.call_wave_cooldown);
    assert!(
        cooldown > TICK,
        "a cooldown shorter than one tick would let the next tick re-arm it"
    );

    harness.advance(1);
    harness.sim.call_wave(a).expect("A's first call");
    harness.step();

    // The cooldown is the caller's, not the table's: B is unaffected by A's
    // call, and A cannot call again yet.
    assert_eq!(harness.sim.call_wave(a), Err(Reject::RateLimited));
    harness.sim.call_wave(b).expect("B may call");
}

#[test]
fn a_finished_match_refuses_a_wave_call() {
    let mut tuned = (*shipped_balance()).clone();
    tuned.match_rules.lose_rule = LoseRule::Overrun;
    tuned.match_rules.overrun_cap = 3;
    let mut harness = Harness::with_balance(Arc::new(tuned));
    harness.sim.add_player(player(1));

    harness.advance_until(600, |sim| sim.over);
    assert_eq!(harness.sim.call_wave(player(1)), Err(Reject::MatchOver));
}

// ---------------------------------------------------------------------------
// Determinism and the seeded RNG
// ---------------------------------------------------------------------------

/// The shipped tables, with the match seed replaced.
fn seeded_balance(seed: u64) -> Arc<BalanceData> {
    let mut tuned = (*shipped_balance()).clone();
    tuned.match_rules.seed = seed;
    Arc::new(tuned)
}

/// Every creep's distance along the path, in spawn order.
fn creep_distances(sim: &Sim) -> Vec<f32> {
    let mut dists: Vec<f32> = creeps(sim).iter().map(|(_, creep)| f(creep.dist)).collect();
    dists.sort_by(|a, b| a.partial_cmp(b).expect("no NaN distances"));
    dists
}

#[test]
fn the_same_seed_replays_and_a_different_seed_does_not() {
    let seed = 0x5EED_1234_5678_9ABC;

    let run = |seed: u64| {
        let mut harness = Harness::with_balance(seeded_balance(seed));
        harness.sim.add_player(player(1));
        harness.advance_until(600, |sim| sim.wave == 1);
        harness.advance(90);
        creep_distances(&harness.sim)
    };

    let first = run(seed);
    let again = run(seed);
    let other = run(seed ^ 1);

    assert!(!first.is_empty(), "the wave must have spawned something");
    assert_eq!(
        first, again,
        "the same seed is the same match, tick for tick"
    );
    assert_ne!(
        first, other,
        "a different seed has to be observable, or the seed is decoration"
    );
}

#[test]
fn a_wave_enters_at_its_lane_spawn_point_in_a_column() {
    // A wave enters every lane at that lane's spawn point, one behind another.
    let mut harness = Harness::with_balance(seeded_balance(7));
    harness.advance_until(600, |sim| sim.wave == 1);

    let map = harness.sim.map.clone();
    let scaling = harness.sim.balance.waves.scaling;
    let (spawn_gap, spawn_arc, spawn_jitter) = (f(scaling.spawn_gap), f(scaling.spawn_arc), f(scaling.spawn_jitter));
    let per_lane = harness.sim.creeps_per_lane();
    let steps = per_lane.saturating_sub(1) as f32;
    let gap = spawn_gap
        .min(spawn_arc / steps.max(1.0))
        .min(spawn_arc / steps.max(f32::MIN_POSITIVE));
    let limit = gap * spawn_jitter;
    assert!(
        limit > 0.0,
        "the tables must jitter at all for this test to mean anything"
    );

    for lane in 0..map.lanes.len() as u8 {
        let dists = Harness::lane_distances(&harness.sim, lane);
        assert_eq!(
            dists.len(),
            per_lane as usize,
            "lane {lane} got its whole share of the wave"
        );

        // Nothing has strayed past the arrival window: the whole wave is a
        // column at the spawn point, and the goal is a whole lane away.
        assert!(
            dists.last().copied().unwrap_or_default() <= spawn_arc,
            "lane {lane} spawned {} past its arrival window",
            dists.last().copied().unwrap_or_default()
        );
        assert!(
            f(map.lanes[lane as usize].total) > spawn_arc,
            "the window has to be shorter than the lane for that to mean anything"
        );

        for (slot, dist) in dists.iter().enumerate() {
            let ideal = gap * slot as f32;
            assert!(
                (dist - ideal).abs() <= limit,
                "lane {lane} creep {slot} is at {dist}, more than {limit} from its slot at {ideal}"
            );
        }
    }

    // And the jitter moved something, or the generator is decoration.
    let moved = (0..map.lanes.len() as u8).any(|lane| {
        Harness::lane_distances(&harness.sim, lane)
            .iter()
            .enumerate()
            .any(|(slot, dist)| (dist - gap * slot as f32).abs() > 0.0)
    });
    assert!(moved, "the jitter has to have moved something");
}

#[test]
fn each_wave_draws_further_along_the_generator() {
    // If the jitter were a pure function of the wave number the second wave
    // would repeat the first, and a "seeded" generator would be a fancy
    // constant. This runs on the short board so the first wave has leaked away
    // before the second arrives, which makes "lane 0's creeps" a clean reading
    // of one wave's draws.
    let mut tuned = (*seeded_balance(11)).clone();
    tuned.match_rules.lose_rule = LoseRule::Overrun;
    tuned.match_rules.overrun_cap = 1_000_000; // leaks must not end this
    tuned.match_rules.first_wave_delay = s(0.1);
    tuned.match_rules.wave_interval = s(2.0);
    tuned.waves.scaling.count_base = s(1.0);
    tuned.waves.scaling.count_per_wave = s(0.0); // every wave the same size
    tuned.waves.scaling.speed_base = s(21_000.0);
    tuned.waves.scaling.speed_growth = s(0.0);
    tuned.waves.scaling.hp_base = s(1_000.0);

    let mut harness = Harness::with_board(Arc::new(tuned), short_board());
    harness.advance_until(600, |sim| sim.wave == 1);
    let first = Harness::lane_distances(&harness.sim, 0);
    assert_eq!(first.len(), 1, "one creep per lane per wave");

    let timer = f(harness.sim.balance.match_rules.wave_interval);
    harness.advance((timer / TICK).ceil() as u32 + 2);
    assert_eq!(harness.sim.wave, 2, "the second wave has started");
    assert_eq!(
        harness.sim.creeps_alive(),
        2,
        "the first wave leaked away, so only the second is on the board"
    );

    let second = Harness::lane_distances(&harness.sim, 0);
    assert_eq!(first.len(), second.len(), "both waves are the same size");
    assert_ne!(
        first, second,
        "wave 2 must draw fresh numbers, not repeat wave 1"
    );
}

#[test]
fn the_generator_is_reproducible_and_not_degenerate() {
    let mut first = Rng::from_seed(42);
    let mut again = Rng::from_seed(42);
    let mut other = Rng::from_seed(43);

    let mut draws = Vec::new();
    for _ in 0..64 {
        let a = first.next_u64();
        assert_eq!(a, again.next_u64(), "same seed, same stream");
        assert!(
            a != other.next_u64(),
            "a different seed, a different stream"
        );
        draws.push(a);
    }
    draws.sort_unstable();
    draws.dedup();
    assert_eq!(draws.len(), 64, "64 draws produced 64 distinct values");

    let mut rng = Rng::from_seed(0);
    for _ in 0..1000 {
        let value = f(rng.next_f32());
        assert!((0.0..1.0).contains(&value), "{value} is not in [0, 1)");
    }
    for _ in 0..1000 {
        let value = f(rng.range_f32(s(-2.5), s(2.5)));
        assert!(
            (-2.5..2.5).contains(&value),
            "{value} is not in [-2.5, 2.5)"
        );
    }
    assert_eq!(
        f(rng.range_f32(s(1.0), s(1.0))),
        1.0,
        "an empty range yields its bound"
    );
    assert_eq!(
        f(rng.range_f32(s(1.0), s(0.0))),
        1.0,
        "an inverted range yields `low` rather than panicking"
    );
}

#[test]
fn the_match_seed_comes_from_the_tables() {
    let harness = Harness::with_balance(seeded_balance(0xDEAD_BEEF));
    assert_eq!(harness.sim.seed(), 0xDEAD_BEEF);

    // ...and it is not a protocol number: two peers on the same rules agree on
    // the hash whatever match they are playing.
    let one = seeded_balance(1);
    let two = seeded_balance(2);
    assert_eq!(
        hash(&one),
        hash(&two),
        "the seed is not part of the ruleset"
    );
}

// ---------------------------------------------------------------------------
// The map
// ---------------------------------------------------------------------------

#[test]
fn a_non_finite_distance_lands_on_the_lane_rather_than_panicking() {
    // A position that is not a number would travel on into whatever draws it,
    // where it is far harder to find than a creep standing at the start of its
    // lane.
    let map = shipped_map();
    let lane = &map.lanes[0];

    for bad in [f32::NAN, f32::INFINITY, f32::NEG_INFINITY] {
        let at = lane.sample(s(bad));
        assert!(
            at.is_finite(),
            "sampling {bad} produced {at:?}, which would poison whatever draws it"
        );
    }

    // The ordinary walk: the spawn point at zero, the goal at the end, and a
    // point on the lane in between. A lane does not wrap -- past its end it is
    // the goal, which is what a leak is.
    assert_eq!(lane.sample(s(0.0)), lane.spawn());
    assert_eq!(lane.sample(lane.total), map.goal.centre);
    assert_eq!(
        lane.sample(lane.total.times(s(2.0))),
        map.goal.centre,
        "a lane does not wrap around; it ends at the goal"
    );
    let middle = lane.sample(lane.total.times(s(0.5)));
    assert!(middle.is_finite() && f(lane.distance_to(middle)) < 1.0);
}

// ---------------------------------------------------------------------------
// The board
// ---------------------------------------------------------------------------

#[test]
fn the_shipped_board_has_lanes_that_end_at_its_goal() {
    let map = shipped_map();

    assert!(
        map.lanes.len() >= 9,
        "the real board has nine colours and ten spawn points, got {}",
        map.lanes.len()
    );
    for lane in &map.lanes {
        assert!(
            f(lane.sample(lane.total).distance(map.goal.centre)) < 1.0,
            "lane {} ends at the goal",
            lane.name
        );
        assert!(
            f(map.goal.half.x) > 0.0 && f(map.goal.half.y) > 0.0,
            "the goal is a region, not a point"
        );
    }

    // The goal is a single shared region: every lane funnels into it, which is
    // what makes the board's middle worth defending.
    let ends: Vec<IVec2> = map
        .lanes
        .iter()
        .map(|lane| map.world_to_cell(lane.sample(lane.total)))
        .collect();
    assert!(
        ends.iter().all(|end| *end == ends[0]),
        "every lane reaches the same goal, got {ends:?}"
    );
}

#[test]
fn the_board_is_open_ground_except_for_its_lanes() {
    let map = shipped_map();

    // Green TD's placement rule, and the whole of it: no maze, no blocking.
    let mut buildable = 0;
    let mut blocked = 0;
    for y in 0..map.tiles_y {
        for x in 0..map.tiles_x {
            let cell = IVec2 { x, y };
            if map.is_buildable(cell) {
                buildable += 1;
            } else {
                blocked += 1;
            }
        }
    }
    assert!(buildable > 0 && blocked > 0, "the board has both");
    assert!(
        buildable > blocked,
        "most of an open field is buildable: {buildable} of {}",
        buildable + blocked
    );

    // A cell on a lane is never buildable, and a cell far from every lane is.
    assert!(!map.is_buildable(map.world_to_cell(map.lanes[0].sample(s(0.0)))));
    assert!(map.is_buildable(IVec2 { x: 0, y: 0 }), "the corner is empty");
    assert!(!map.is_buildable(IVec2 { x: -1, y: 0 }), "off the board");
}

// ---------------------------------------------------------------------------
// Local identity
// ---------------------------------------------------------------------------

#[test]
fn the_match_view_carries_the_lobby_size() {
    let mut harness = Harness::with_players(&[1, 2, 3]);
    assert_eq!(
        harness.sim.match_view().players,
        3,
        "the HUD reads the lobby size from the match, not from the views it holds"
    );

    harness.sim.remove_player(player(2));
    assert_eq!(
        harness.sim.match_view().players,
        2,
        "a leaver is not playing"
    );
    assert_eq!(
        harness.sim.players.len(),
        3,
        "but their record and towers stay"
    );

    // The count is the same one the wave size is built from, so the two cannot
    // disagree.
    assert_eq!(harness.sim.players_connected(), 2);
    assert_eq!(
        harness.sim.wave_size(),
        harness.sim.balance.creeps_per_lane(harness.sim.wave, 2) * harness.sim.lane_count()
    );
}

// ---------------------------------------------------------------------------
// Match phase
// ---------------------------------------------------------------------------

#[test]
fn the_match_phase_follows_the_sim() {
    let mut waiting = Harness::new();
    assert_eq!(waiting.sim.phase(), Phase::Waiting, "nobody has played yet");
    assert_eq!(waiting.sim.match_view().phase, Phase::Waiting.as_u8());

    waiting.advance_until(600, |sim| sim.wave == 1);
    assert_eq!(
        waiting.sim.phase(),
        Phase::InMatch,
        "a started match is no longer waiting"
    );

    // Force the lose condition instead of waiting for a real overrun.
    let mut tuned = (*shipped_balance()).clone();
    tuned.match_rules.lose_rule = LoseRule::Overrun;
    tuned.match_rules.overrun_cap = 3;
    let mut over = Harness::with_balance(Arc::new(tuned));
    over.advance_until(600, |sim| sim.over);

    assert_eq!(over.sim.phase(), Phase::Over);

    // This is what the server mirrors, so it is what the HUD reads: the final
    // overrun count, not whatever it was on the frame the cap was crossed.
    let mirrored = over.sim.match_view();
    assert_eq!(mirrored.phase, Phase::Over.as_u8());
    assert_eq!(mirrored.live_creeps, over.sim.creeps_alive());
    assert!(
        mirrored.live_creeps > over.sim.overrun_cap(),
        "the cap is what ended it, so more creeps are alive than it allows"
    );
    assert_eq!(mirrored.overrun_cap, over.sim.overrun_cap());
}

// ---------------------------------------------------------------------------
// The last sim literals are data
// ---------------------------------------------------------------------------

/// A board with one enormous-range, one-shot tower of `kind`, upgraded once to
/// level 2, and one very tough creep. Returns the harness the instant the creep
/// has been hit once, so a test can measure exactly one shot.
fn one_shot_at_level_two(kind: u8, tune: impl FnOnce(&mut BalanceData)) -> Harness {
    let mut tuned = (*shipped_balance()).clone();
    tuned.match_rules.start_gold = 1_000_000;
    tuned.match_rules.first_wave_delay = s(0.1);
    tuned.match_rules.wave_interval = s(1_000.0);
    tuned.waves.scaling.count_base = s(1.0);
    tuned.waves.scaling.count_per_wave = s(0.0);
    tuned.waves.scaling.hp_base = s(1_000.0);
    {
        let tower = &mut tuned.towers[kind as usize];
        tower.range = s(100_000.0); // always in range
        tower.cooldown = s(1_000.0); // fires exactly once in this window
        tower.damage = s(10.0);
    }
    tune(&mut tuned);

    let mut harness = Harness::with_balance(Arc::new(tuned));
    let who = player(1);
    harness.sim.add_player(who);
    let cell = cell_beside_the_path(&harness.sim);
    harness.sim.try_build(who, cell, kind).expect("the build");
    harness.sim.try_upgrade(who, cell).expect("one upgrade");
    assert_eq!(
        harness.sim.towers.get(&cell).map(|tower| tower.level),
        Some(2),
        "the tower is level 2"
    );

    harness.advance_until(600, |sim| creeps(sim).iter().any(|(_, c)| c.hp.lt(c.max_hp)));
    harness
}

/// The one creep a single tower has shot, so a test measures the shot rather
/// than whichever creep comes first.
fn the_hit_creep(harness: &Harness) -> Creep {
    creeps(&harness.sim)
        .into_iter()
        .map(|(_, creep)| creep)
        .find(|creep| creep.hp.lt(creep.max_hp))
        .expect("something was hit")
}

#[test]
fn the_tier_scaling_is_read_from_the_table() {
    let dealt = |growth: f32| {
        let harness = one_shot_at_level_two(0, |data| data.towers[0].damage_per_level = s(growth));
        let creep = the_hit_creep(&harness);
        f(creep.max_hp) - f(creep.hp)
    };

    let flat = dealt(0.0);
    let grown = dealt(0.45);
    assert!(
        (flat - 10.0).abs() < 0.01,
        "no growth: a level-2 shot is 10, got {flat}"
    );
    assert!(
        (grown - 14.5).abs() < 0.01,
        "at +45% per level a level-2 shot is 14.5, got {grown}"
    );
}

#[test]
fn the_slow_duration_is_read_from_the_table() {
    let harness = one_shot_at_level_two(2, |data| {
        data.towers[2].slow = s(0.5);
        data.towers[2].slow_duration = s(7.0);
    });
    let creep = the_hit_creep(&harness);
    // `advance_creeps` runs before `fire`, so a timer set this tick has not been
    // decremented yet: it is exactly the table's duration.
    assert!(
        (f(creep.slow_timer) - 7.0).abs() < 1e-4,
        "the slow lasts the table's duration, got {}",
        f(creep.slow_timer)
    );
    assert!(f(creep.speed_mult()) < 1.0, "a slowed creep moves slower");

    let harness = one_shot_at_level_two(2, |data| {
        data.towers[2].slow = s(0.5);
        data.towers[2].slow_duration = s(0.0);
    });
    let creep = the_hit_creep(&harness);
    assert_eq!(f(creep.slow_timer), 0.0, "a zero duration never slows");
    assert_eq!(f(creep.speed_mult()), 1.0, "an expired slow is not a slow");
}

// ---------------------------------------------------------------------------
// The goal, the leak and the lives
// ---------------------------------------------------------------------------

/// Tables for the leak tests: one creep per lane, walking a 2100-unit lane fast
/// enough to arrive in a handful of ticks, on a fixed number of lives.
fn leak_tables(lives: u32, rule: LoseRule) -> Arc<BalanceData> {
    let mut tuned = (*shipped_balance()).clone();
    tuned.match_rules.lose_rule = rule;
    tuned.match_rules.starting_lives = lives;
    tuned.match_rules.first_wave_delay = s(0.1);
    tuned.match_rules.wave_interval = s(1.0);
    tuned.waves.scaling.count_base = s(1.0);
    tuned.waves.scaling.count_per_wave = s(0.0);
    tuned.waves.scaling.speed_base = s(21_000.0); // a whole lane in three ticks
    tuned.waves.scaling.speed_growth = s(0.0);
    tuned.waves.scaling.hp_base = s(1_000.0); // nothing kills them, they leak
    Arc::new(tuned)
}

#[test]
fn a_creep_that_reaches_the_goal_costs_a_life() {
    let mut harness = Harness::with_board(leak_tables(10, LoseRule::Lives), short_board());
    let lanes = harness.sim.lane_count();
    assert_eq!(lanes, 2, "the short board has two lanes");

    // Both lanes are the same length but the jitter is not, so "wait for the
    // first leak" is not "wait for the whole wave"; wait for the wave.
    let (_, events) = harness.advance_until(600, |sim| sim.leaks >= lanes);

    assert_eq!(
        count_matching(&events, |e| matches!(e, SimEvent::Leaked(_))),
        harness.sim.leaks as usize,
        "every leak is announced exactly once"
    );
    assert_eq!(
        harness.sim.leaks, lanes,
        "one creep per lane reached the goal"
    );
    assert_eq!(
        harness.sim.lives,
        10 - lanes,
        "and each of them cost a life"
    );
    assert_eq!(
        harness.sim.creeps_alive(),
        0,
        "a leaked creep leaves the board: it is not still walking"
    );
    assert!(!harness.sim.over, "there are lives left");
}

#[test]
fn running_out_of_lives_ends_the_match() {
    // Two lanes, five lives, so it takes the third wave to lose.
    let mut harness = Harness::with_board(leak_tables(5, LoseRule::Lives), short_board());
    let (_, events) = harness.advance_until(2_000, |sim| sim.over);

    assert_eq!(harness.sim.lives, 0, "the lives are what ran out");
    assert_eq!(harness.sim.leaks, 6, "three waves of two lanes leaked");
    assert_eq!(
        count_matching(&events, |e| matches!(e, SimEvent::GameOver)),
        1,
        "game over is announced once"
    );
    assert_eq!(harness.sim.phase(), Phase::Over);
    assert!(harness.step().is_empty(), "a finished match does not step");
}

#[test]
fn the_overrun_rule_does_not_spend_lives() {
    // The match ends because there are too many creeps at once.
    let mut tuned = (*leak_tables(5, LoseRule::Overrun)).clone();
    tuned.match_rules.overrun_cap = 1;
    let mut harness = Harness::with_board(Arc::new(tuned), short_board());

    harness.advance_until(600, |sim| sim.over);

    assert!(harness.sim.over);
    assert_eq!(
        harness.sim.leaks, 0,
        "under overrun the cap ends it, and two creeps are alive"
    );
    assert_eq!(
        harness.sim.lives, 5,
        "the lives are untouched: the rule is not the reason it ended"
    );
}

#[test]
fn a_leak_is_counted_under_either_rule() {
    // Under `overrun` a leak costs no life, but it still happened, and the
    // count is what a multiboard would show.
    let mut tuned = (*leak_tables(5, LoseRule::Overrun)).clone();
    tuned.match_rules.overrun_cap = 1_000; // out of the way
    let mut harness = Harness::with_board(Arc::new(tuned), short_board());

    harness.advance_until(600, |sim| sim.leaks > 0);

    assert!(harness.sim.leaks > 0, "the creeps reached the goal");
    assert_eq!(
        harness.sim.lives, 5,
        "and cost nothing under the overrun rule"
    );
    assert_eq!(harness.sim.match_view().leaks, harness.sim.leaks);
    assert_eq!(harness.sim.match_view().lives, harness.sim.lives);
}

// ---------------------------------------------------------------------------
// The step order
// ---------------------------------------------------------------------------

/// A buildable cell whose centre is within `within` world units of the goal.
///
/// The leak test needs a tower that can reach the goal but *not* the spawn
/// point, so that "did the tower fire at all" is a question about the leak
/// rather than about range.
fn buildable_cell_near_goal(sim: &Sim, within: f32) -> IVec2 {
    let map = &sim.map;
    for y in 0..map.tiles_y {
        for x in 0..map.tiles_x {
            let cell = IVec2 { x, y };
            if sim.is_buildable(cell) && f(map.cell_to_world(cell).distance(map.goal.centre)) <= within
            {
                return cell;
            }
        }
    }
    panic!("the board has no buildable cell within {within} of the goal");
}

#[test]
fn a_creep_that_reaches_the_goal_leaks_before_a_tower_can_shoot_it() {
    // Leaks come before the fire phase, so a creep that arrives at the goal on a
    // tick cannot also be shot on that tick.
    // This pins the order `Sim::step` documents, and it is written as a
    // contradiction: the tower's shot is lethal and the creep is placed at the
    // goal with a single hit point, so if the fire phase ran first the creep
    // would be *killed* -- a `CreepKilled` event and a bounty. Because the leak
    // runs first the creep is off the board before any tower acquires a target,
    // and the tower finds nothing else in range to shoot.
    let mut tuned = (*shipped_balance()).clone();
    tuned.match_rules.lose_rule = LoseRule::Overrun;
    tuned.match_rules.overrun_cap = 1_000_000; // the leak must not end the match
    tuned.match_rules.starting_lives = 1_000;
    tuned.match_rules.first_wave_delay = s(0.1);
    tuned.match_rules.wave_interval = s(100_000.0); // exactly one wave
    tuned.waves.scaling.count_base = s(1.0);
    tuned.waves.scaling.count_per_wave = s(0.0);
    tuned.waves.scaling.speed_base = s(0.0); // the creeps stand still
    tuned.waves.scaling.speed_growth = s(0.0);
    tuned.waves.scaling.hp_base = s(1_000.0); // only the placed creep is killable
    tuned.waves.scaling.hp_growth = s(0.0);
    tuned.towers[0].damage = s(1_000_000.0); // one shot kills anything
    tuned.towers[0].range = s(600.0); // reaches the goal, not the spawn points
    tuned.towers[0].cooldown = s(0.0); // ready on the very first tick
    let mut harness = Harness::with_board(Arc::new(tuned), short_board());

    let who = player(1);
    harness.sim.add_player(who);
    let start_gold = harness.sim.balance.match_rules.start_gold;
    let cost = harness
        .sim
        .balance
        .tower(0)
        .map(|tower| tower.cost)
        .expect("kind 0 is in the tower table");

    let cell = buildable_cell_near_goal(&harness.sim, 200.0);
    harness.sim.try_build(who, cell, 0).expect("the build");

    // One wave, then one of its creeps is placed on the goal with one hit point.
    // The others stay at the spawn point, well out of the tower's range.
    harness.advance_until(600, |sim| sim.wave == 1);
    let id = creeps(&harness.sim)
        .iter()
        .map(|(id, _)| *id)
        .min()
        .expect("the wave spawned creeps");
    let lane = harness.sim.creeps.get(&id).expect("it entered").lane;
    let total = harness.sim.map.lanes[lane as usize].total;
    place(&mut harness.sim, id, |creep| {
        creep.dist = total;
        creep.hp = s(1.0);
    });

    let events = harness.step();

    assert_eq!(
        count_matching(
            &events,
            |e| matches!(e, SimEvent::Leaked(leaked) if *leaked == id)
        ),
        1,
        "the creep at the goal leaked this tick"
    );
    assert_eq!(
        count_matching(&events, |e| matches!(e, SimEvent::CreepKilled(_))),
        0,
        "nothing was killed: the leak ran before the fire phase"
    );
    assert_eq!(kills(&harness.sim, who), 0, "and so nothing was credited");
    assert_eq!(
        gold(&harness.sim, who),
        start_gold - cost,
        "the tower's owner earned no bounty for a creep it never shot"
    );
    assert!(
        !harness.sim.creeps.contains_key(&id),
        "the leaked creep is off the board"
    );
}

#[test]
fn a_creep_killed_on_a_tick_is_reaped_on_that_tick() {
    // The other load-bearing ordering in `Sim::step`: the damage
    // phase precedes the reap phase, so a creep the tower brings to zero this
    // tick is removed and its killer paid on the same tick, not the next one.
    let mut tuned = (*shipped_balance()).clone();
    tuned.match_rules.lose_rule = LoseRule::Overrun;
    tuned.match_rules.overrun_cap = 1_000_000;
    tuned.match_rules.first_wave_delay = s(0.1);
    tuned.match_rules.wave_interval = s(100_000.0); // exactly one wave
    tuned.waves.scaling.count_base = s(1.0);
    tuned.waves.scaling.count_per_wave = s(0.0);
    tuned.waves.scaling.speed_base = s(0.0); // the creeps stand still
    tuned.waves.scaling.speed_growth = s(0.0);
    tuned.waves.scaling.hp_base = s(1_000.0);
    tuned.waves.scaling.hp_growth = s(0.0);
    tuned.towers[0].damage = s(1_000_000.0); // one shot kills anything
    tuned.towers[0].range = s(600.0);
    tuned.towers[0].cooldown = s(0.0);
    let mut harness = Harness::with_board(Arc::new(tuned), short_board());

    let who = player(1);
    harness.sim.add_player(who);
    let bounty = harness.sim.balance.creep_bounty(1);
    let cell = buildable_cell_near_goal(&harness.sim, 200.0);
    harness.sim.try_build(who, cell, 0).expect("the build");

    // One creep in the tower's range, the rest out of it.
    harness.advance_until(600, |sim| sim.wave == 1);
    let id = creeps(&harness.sim)
        .iter()
        .map(|(id, _)| *id)
        .min()
        .expect("the wave spawned creeps");
    let lane = harness.sim.creeps.get(&id).expect("it entered").lane;
    let total = harness.sim.map.lanes[lane as usize].total;
    // Just short of the goal, so the creep is in the tower's range and is the
    // next to arrive -- but has not arrived, so it is shot rather than leaked.
    place(&mut harness.sim, id, |creep| creep.dist = total.minus(s(1.0)));

    let events = harness.step();

    assert_eq!(
        count_matching(
            &events,
            |e| matches!(e, SimEvent::CreepKilled(killed) if *killed == id)
        ),
        1,
        "the kill is announced on the tick it happens"
    );
    assert_eq!(kills(&harness.sim, who), 1, "and the kill is credited now");
    assert_eq!(
        gold(&harness.sim, who),
        harness.sim.balance.match_rules.start_gold
            - harness.sim.balance.tower(0).expect("kind 0").cost
            + bounty,
        "the bounty lands in the same tick as the shot (damage before reap)"
    );
    assert!(
        !harness.sim.creeps.contains_key(&id),
        "the dead creep is gone"
    );
}


// ---------------------------------------------------------------------------
// Columns
// ---------------------------------------------------------------------------

#[test]
fn a_column_never_starts_past_its_arc() {
    let length = |count: u32| f(column_length(count, s(40.0), s(1600.0)));
    assert_eq!(length(1), 0.0);
    assert_eq!(length(2), 40.0);
    // Past the arc the gap shrinks rather than the column overrunning.
    assert!((length(100) - 1600.0).abs() < 0.01);
    assert!(f(column_gap(100, s(40.0), s(1600.0))) < 40.0);
    // Exactly at the arc the table's gap is kept.
    assert_eq!(length(41), 1600.0);
}

#[test]
fn a_column_overruns_its_arc_by_a_rounding_at_most() {
    for arc in [1.0f32, 100.0, 1234.5, 1600.0, 9999.0] {
        for count in 2..400u32 {
            let length = f(column_length(count, s(50.0), s(arc)));
            assert!(length.to_bits() <= arc.to_bits() + 1, "{count} creeps in {arc}: {length}");
        }
    }
}

/// The distances of the first wave of a match on these tables, lane by lane, in
/// the order of the ids, before anything has moved.
fn first_wave(change: impl FnOnce(&mut WaveScaling)) -> Vec<Vec<f32>> {
    let mut tuned = tables();
    tuned.waves.scaling.speed_growth = s(0.0);
    change(&mut tuned.waves.scaling);
    let mut harness = Harness::with_board(Arc::new(tuned), short_board());
    harness.sim.wave_timer = s(0.0);
    harness.sim.step(s(0.0));
    let lanes = harness.sim.map.lanes.len() as u8;
    (0..lanes)
        .map(|lane| {
            creeps(&harness.sim)
                .iter()
                .filter(|(_, c)| c.lane == lane)
                .map(|(_, c)| f(c.dist))
                .collect()
        })
        .collect()
}

#[test]
fn a_compressed_wave_stays_inside_its_arc() {
    let lanes = first_wave(|scaling| scaling.count_base = s(100.0));
    for dists in &lanes {
        assert_eq!(dists.len(), 100);
        assert!(dists.iter().all(|dist| *dist <= 1600.0), "{dists:?}");
    }
    // The last slot stands at the arc, so about every other jitter is cut off.
    let cut = (0..40u64)
        .filter(|seed| {
            let mut tuned = tables();
            tuned.match_rules.seed = *seed;
            tuned.waves.scaling.count_base = s(100.0);
            let mut harness = Harness::with_board(Arc::new(tuned), short_board());
            harness.sim.wave_timer = s(0.0);
            harness.sim.step(s(0.0));
            creeps(&harness.sim).iter().any(|(_, c)| f(c.dist) == 1600.0)
        })
        .count();
    assert!(cut > 10, "only {cut} of 40 waves reached the end of the arc");
}

#[test]
fn a_wave_keeps_its_order_whatever_the_jitter() {
    for jitter in [0.0, 0.25, 0.49, 0.499_999_97] {
        for count in [1.0, 2.0, 20.0, 777.0] {
            for gap in [0.1, 1.0, 77.7, 1600.0] {
                let lanes = first_wave(|scaling| {
                    scaling.count_base = s(count);
                    scaling.spawn_jitter = s(jitter);
                    scaling.spawn_gap = s(gap);
                });
                for dists in &lanes {
                    assert!(dists.windows(2).all(|pair| pair[0] <= pair[1]), "{jitter} {count} {gap}");
                }
            }
        }
    }
}

#[test]
fn a_creep_enters_at_its_slot_plus_its_draw() {
    let lanes = first_wave(|scaling| scaling.count_base = s(3.0));
    let mut rng = Rng::from_seed(0x5eed);
    for dists in &lanes {
        for (slot, dist) in dists.iter().enumerate() {
            let drift = f(rng.range_f32(s(-36.0), s(36.0)));
            assert_eq!(*dist, slot as f32 * 80.0 + drift);
        }
    }
}

#[test]
fn tables_that_jitter_past_half_a_slot_get_what_they_ask_for() {
    // No validation stands between such tables and a match.
    let lanes = first_wave(|scaling| {
        scaling.count_base = s(3.0);
        scaling.spawn_jitter = s(2.0);
    });
    let mut rng = Rng::from_seed(0x5eed);
    for dists in &lanes {
        for (slot, dist) in dists.iter().enumerate() {
            let drift = f(rng.range_f32(s(-160.0), s(160.0)));
            assert_eq!(*dist, slot as f32 * 80.0 + drift);
        }
    }
    // An inverted range draws nothing and yields its start.
    let lanes = first_wave(|scaling| {
        scaling.count_base = s(3.0);
        scaling.spawn_jitter = s(-1.0);
    });
    assert_eq!(lanes[0], [80.0, 160.0, 240.0]);
}

#[test]
fn a_draw_never_reaches_the_end_of_its_range() {
    let bits = |x: f32| x.to_bits();
    for low in [1.0f32, -1.0, 0.0, 1.0e-45, 3.0e38, -3.0e38, f32::MIN] {
        let mut high = low;
        for _ in 0..3 {
            high = if high == 0.0 {
                f32::from_bits(1)
            } else if high > 0.0 {
                f32::from_bits(bits(high) + 1)
            } else {
                f32::from_bits(bits(high) - 1)
            };
            for seed in 0..50u64 {
                let value = f(Rng::from_seed(seed).range_f32(s(low), s(high)));
                assert!(low <= value && value < high, "{value} is not in [{low}, {high})");
            }
        }
    }
    for (low, high) in [(f32::MIN, f32::MAX), (f32::NEG_INFINITY, 0.0), (0.0, f32::INFINITY)] {
        for seed in 0..50u64 {
            let value = f(Rng::from_seed(seed).range_f32(s(low), s(high)));
            assert!(low <= value && value < high, "{value} is not in [{low}, {high})");
        }
    }
    // Nothing is drawn from a range that holds nothing.
    let mut rng = Rng::from_seed(5);
    assert_eq!(f(rng.range_f32(s(1.0), s(0.0))), 1.0);
    assert_eq!(rng, Rng::from_seed(5));
}

// ---------------------------------------------------------------------------
// The ledger
// ---------------------------------------------------------------------------

#[test]
fn every_creep_is_accounted_for() {
    let mut harness = Harness::with_board(leak_tables(100, LoseRule::Lives), short_board());
    harness.sim.add_player(player(1));
    let cell = cell_beside_the_path(&harness.sim);
    harness.sim.try_build(player(1), cell, 0).expect("the build");
    let (mut killed, mut escaped) = (0, 0);
    let mut here: Vec<CreepId> = Vec::new();
    for _ in 0..400 {
        for event in harness.step() {
            match event {
                SimEvent::CreepSpawned(id) => {
                    assert!(!here.contains(&id), "{id:?} entered twice");
                    here.push(id);
                }
                SimEvent::CreepKilled(id) | SimEvent::Leaked(id) => {
                    assert!(here.contains(&id), "{id:?} left without being there");
                    here.retain(|other| *other != id);
                    if matches!(event, SimEvent::Leaked(_)) {
                        escaped += 1;
                    } else {
                        killed += 1;
                    }
                }
                SimEvent::WaveStarted(_) | SimEvent::GameOver => {}
            }
        }
        let board: Vec<CreepId> = creeps(&harness.sim).iter().map(|(id, _)| *id).collect();
        assert_eq!(board, here);
        assert_eq!(harness.sim.leaks, escaped);
        for (_, creep) in creeps(&harness.sim) {
            assert!(f(creep.hp) > 0.0);
            assert!(f(creep.remaining(&harness.sim.map)) > 0.0);
        }
    }
    assert_eq!(kills(&harness.sim, player(1)), killed);
    assert!(escaped > 0);
}

// ---------------------------------------------------------------------------
// Gold
// ---------------------------------------------------------------------------

#[test]
fn every_refusal_to_build_has_its_reason() {
    let who = player(1);
    let mut harness = Harness::with_board(shipped_balance(), short_board());
    let free = cell_beside_the_path(&harness.sim);
    let on_lane = IVec2 { x: 0, y: 8 };
    assert_eq!(harness.sim.try_build(who, free, 0), Err(Reject::NotInMatch));
    harness.sim.add_player(who);
    assert_eq!(harness.sim.try_build(who, free, 3), Err(Reject::BadKind));
    assert_eq!(harness.sim.try_build(who, IVec2 { x: 99, y: 0 }, 0), Err(Reject::OutOfBounds));
    assert_eq!(harness.sim.try_build(who, on_lane, 0), Err(Reject::PathBlocked));
    assert_eq!(harness.sim.try_upgrade(who, free), Err(Reject::NoSuchTower));
    assert_eq!(harness.sim.try_sell(who, free), Err(Reject::NoSuchTower));
    assert_eq!(harness.sim.try_build(who, free, 0), Ok(()));
    assert_eq!(harness.sim.try_build(who, free, 0), Err(Reject::Occupied));
    let mut poor = harness.sim.players.get(&who).expect("joined");
    poor.gold = 10;
    harness.sim.players.insert(who, poor);
    let other = IVec2 { x: 10, y: 10 };
    assert_eq!(harness.sim.try_build(who, other, 0), Err(Reject::NotEnoughGold));
    assert_eq!(harness.sim.try_upgrade(who, free), Err(Reject::NotEnoughGold));
    assert_eq!(gold(&harness.sim, who), 10, "a refusal spends nothing");

    harness.sim.over = true;
    assert_eq!(harness.sim.try_build(who, other, 0), Err(Reject::MatchOver));
    assert_eq!(harness.sim.try_upgrade(who, free), Err(Reject::MatchOver));
    assert_eq!(harness.sim.call_wave(who), Err(Reject::MatchOver));
    assert_eq!(harness.sim.try_sell(who, free), Ok(()), "a sale is not refused");
}

#[test]
fn a_tower_of_a_kind_that_is_not_in_the_table_can_neither_grow_nor_go() {
    let who = player(1);
    let mut harness = Harness::with_board(shipped_balance(), short_board());
    harness.sim.add_player(who);
    let cell = IVec2 { x: 10, y: 10 };
    harness.sim.towers.insert(cell, Tower { kind: 9, level: 1, owner: who, cooldown: s(0.0) });
    assert_eq!(harness.sim.try_upgrade(who, cell), Err(Reject::BadKind));
    assert_eq!(harness.sim.try_sell(who, cell), Err(Reject::BadKind));
    assert_eq!(harness.sim.upgrade_cost(9, 1), 0);
    assert_eq!(harness.sim.upgrade_cost(0, 2), 30);
}

#[test]
fn an_upgrade_costs_what_the_table_says_and_raises_the_level() {
    let who = player(1);
    let mut harness = Harness::with_board(shipped_balance(), short_board());
    harness.sim.add_player(who);
    let cell = IVec2 { x: 10, y: 10 };
    harness.sim.try_build(who, cell, 0).expect("the build");
    assert_eq!(gold(&harness.sim, who), 180);
    harness.sim.try_upgrade(who, cell).expect("the first upgrade");
    assert_eq!(gold(&harness.sim, who), 160);
    harness.sim.try_upgrade(who, cell).expect("the second upgrade");
    assert_eq!(gold(&harness.sim, who), 130);
    assert_eq!(harness.sim.towers.get(&cell).map(|t| t.level), Some(3));
    harness.sim.try_sell(who, cell).expect("the sale");
    // 20 for the tower, 20 and 30 for the upgrades: 75 percent of 70.
    assert_eq!(gold(&harness.sim, who), 130 + 52);
}

#[test]
fn the_last_level_and_a_full_purse_are_seen_coming() {
    let who = player(1);
    let mut harness = Harness::with_board(shipped_balance(), short_board());
    harness.sim.add_player(who);
    let cell = IVec2 { x: 10, y: 10 };
    harness.sim.try_build(who, cell, 0).expect("the build");
    assert!(harness.sim.upgrade_fits(who, cell));
    assert!(harness.sim.sale_fits(who, cell));
    let mut rich = harness.sim.players.get(&who).expect("joined");
    rich.gold = u32::MAX;
    harness.sim.players.insert(who, rich);
    assert!(!harness.sim.sale_fits(who, cell));
    harness.sim.towers.insert(cell, Tower { kind: 0, level: 255, owner: who, cooldown: s(0.0) });
    assert!(!harness.sim.upgrade_fits(who, cell));
    assert!(harness.sim.upgrade_fits(player(2), cell), "nobody else could upgrade it anyway");
}

#[test]
fn a_killer_who_left_is_not_paid() {
    let who = player(1);
    let mut tuned = (*shipped_balance()).clone();
    tuned.match_rules.first_wave_delay = s(0.1);
    tuned.towers[0].range = s(100_000.0);
    tuned.towers[0].damage = s(1_000.0);
    let mut harness = Harness::with_board(Arc::new(tuned), short_board());
    harness.sim.add_player(who);
    harness.sim.try_build(who, IVec2 { x: 10, y: 10 }, 0).expect("the build");
    harness.sim.remove_player(who);
    let (_, events) = harness.advance_until(600, |sim| sim.wave == 1 && sim.creeps_alive() < 2);
    assert!(count_matching(&events, |e| matches!(e, SimEvent::CreepKilled(_))) > 0);
    assert_eq!(kills(&harness.sim, who), 0);
    assert_eq!(gold(&harness.sim, who), 180);
}

#[test]
fn a_player_comes_back_to_the_same_record() {
    let who = player(1);
    let mut harness = Harness::with_board(shipped_balance(), short_board());
    harness.sim.add_player(who);
    let cell = IVec2 { x: 10, y: 10 };
    harness.sim.try_build(who, cell, 0).expect("the build");
    harness.sim.add_player(who);
    harness.sim.remove_player(who);
    assert_eq!(harness.sim.players_connected(), 0);
    harness.sim.add_player(who);
    assert_eq!(harness.sim.players_connected(), 1);
    assert_eq!(gold(&harness.sim, who), 180);
    assert!(harness.sim.towers.contains_key(&cell));
    harness.sim.remove_player(player(9));
    assert_eq!(harness.sim.players.len(), 1);
}

// ---------------------------------------------------------------------------
// Shots
// ---------------------------------------------------------------------------

/// A match with one wave standing still and a tower of a kind in its middle.
fn standing(kind: u8, tune: impl FnOnce(&mut BalanceData)) -> (Harness, IVec2) {
    let mut tuned = (*shipped_balance()).clone();
    tuned.match_rules.first_wave_delay = s(0.1);
    tuned.match_rules.wave_interval = s(1_000.0);
    tuned.waves.scaling.count_base = s(3.0);
    tuned.waves.scaling.speed_base = s(0.0);
    tuned.waves.scaling.speed_growth = s(0.0);
    tuned.waves.scaling.hp_base = s(100.0);
    tuned.towers[kind as usize].range = s(100_000.0);
    tuned.towers[kind as usize].cooldown = s(1_000.0);
    tune(&mut tuned);
    let mut harness = Harness::with_board(Arc::new(tuned), short_board());
    harness.sim.add_player(player(1));
    harness.advance_until(600, |sim| sim.wave == 1);
    let cell = IVec2 { x: 10, y: 10 };
    harness.sim.try_build(player(1), cell, kind).expect("the build");
    (harness, cell)
}

#[test]
fn a_tower_shoots_the_creep_closest_to_the_goal() {
    let (mut harness, _) = standing(0, |_| {});
    let ids: Vec<CreepId> = creeps(&harness.sim).iter().map(|(id, _)| *id).collect();
    for (k, id) in ids.iter().enumerate() {
        place(&mut harness.sim, *id, |creep| creep.dist = s(100.0 + 10.0 * ((k * 7) % 5) as f32));
    }
    let map = harness.sim.map.clone();
    let nearest = creeps(&harness.sim)
        .iter()
        .map(|(_, c)| f(c.remaining(&map)))
        .fold(f32::MAX, f32::min);
    harness.step();
    let hit = the_hit_creep(&harness);
    assert_eq!(f(hit.remaining(&map)), nearest);
    assert_eq!(f(hit.hp), 90.0);
    assert_eq!(hit.last_hit_by, player(1));
}

#[test]
fn splash_hits_everything_near_the_impact_and_a_slow_sticks() {
    let (mut harness, cell) = standing(1, |data| {
        data.towers[1].slow = s(0.5);
        data.towers[1].slow_duration = s(3.0);
        data.towers[1].splash = s(75.0);
        data.waves.scaling.spawn_gap = s(60.0);
        data.waves.scaling.spawn_jitter = s(0.0);
    });
    harness.step();
    let hurt: Vec<Creep> = creeps(&harness.sim)
        .into_iter()
        .map(|(_, c)| c)
        .filter(|c| c.hp.lt(c.max_hp))
        .collect();
    // Three creeps of one lane stand at 0, 60 and 120; the last is the target,
    // and the next one is within 75 of it.
    assert_eq!(hurt.len(), 2);
    for creep in hurt {
        assert_eq!(f(creep.hp), 70.0);
        assert_eq!(f(creep.slow_mult), 0.5);
        assert_eq!(f(creep.slow_timer), 3.0);
        assert_eq!(f(creep.speed_mult()), 0.5);
    }
    assert_eq!(harness.sim.towers.get(&cell).map(|t| f(t.cooldown)), Some(1_000.0));
}

#[test]
fn a_tower_on_cooldown_waits() {
    let (mut harness, cell) = standing(0, |data| data.towers[0].cooldown = s(0.25));
    harness.step();
    let shots = |harness: &Harness| -> f32 {
        creeps(&harness.sim).iter().map(|(_, c)| (100.0 - f(c.hp)) / 10.0).sum()
    };
    assert_eq!(shots(&harness), 1.0);
    let cooldown = harness.sim.towers.get(&cell).expect("it stands").cooldown;
    assert_eq!(f(cooldown), 0.25);
    harness.advance(7);
    assert_eq!(shots(&harness), 1.0);
    harness.advance(2);
    assert_eq!(shots(&harness), 2.0);
}

#[test]
fn creeps_walk_their_speed_and_slow_ones_less() {
    let mut tuned = (*leak_tables(10, LoseRule::Lives)).clone();
    tuned.waves.scaling.speed_base = s(90.0);
    tuned.waves.scaling.spawn_jitter = s(0.0);
    let mut harness = Harness::with_board(Arc::new(tuned), short_board());
    harness.advance_until(600, |sim| sim.wave == 1);
    let (id, start) = creeps(&harness.sim)[0];
    place(&mut harness.sim, id, |creep| {
        creep.slow_mult = s(0.5);
        creep.slow_timer = s(TICK * 1.5);
    });
    harness.step();
    let slow = harness.sim.creeps.get(&id).expect("it walks");
    assert_eq!(f(slow.dist), f(start.dist) + 90.0 * 0.5 * TICK);
    harness.step();
    let fast = harness.sim.creeps.get(&id).expect("it walks");
    assert_eq!(f(fast.dist), f(slow.dist) + 90.0 * 1.0 * TICK);
}

// ---------------------------------------------------------------------------
// Ticks that do not fit
// ---------------------------------------------------------------------------

#[test]
fn a_tick_that_a_counter_has_no_room_for_does_not_happen() {
    let mut harness = Harness::with_board(leak_tables(5, LoseRule::Lives), short_board());
    assert!(harness.sim.try_step(s(TICK)).is_some());
    harness.sim.next_id = u32::MAX;
    harness.sim.wave_timer = s(0.0);
    assert!(harness.sim.try_step(s(TICK)).is_none());
}

#[test]
fn a_wave_that_was_called_starts_on_the_next_tick() {
    let mut harness = Harness::with_board(shipped_balance(), short_board());
    harness.sim.add_player(player(1));
    harness.sim.call_wave(player(1)).expect("the call");
    let events = harness.step();
    assert_eq!(events[0], SimEvent::WaveStarted(1));
    assert_eq!(harness.sim.wave, 1);
    assert_eq!(harness.sim.wave_timer, harness.sim.balance.match_rules.wave_interval);
    assert_eq!(events.len(), 1 + harness.sim.creeps_alive() as usize);
}

#[test]
fn ids_go_on_where_they_left_off() {
    let mut harness = Harness::with_board(leak_tables(100, LoseRule::Lives), short_board());
    let mut seen: Vec<CreepId> = Vec::new();
    for event in harness.advance(200) {
        if let SimEvent::CreepSpawned(id) = event {
            assert!(!seen.contains(&id));
            seen.push(id);
        }
    }
    assert!(seen.len() > 4);
}

#[test]
fn the_match_view_is_what_the_sim_says() {
    let mut harness = Harness::with_players(&[1, 2]);
    harness.advance_until(600, |sim| sim.wave == 1);
    assert!(harness.sim.is_countable());
    let view = harness.sim.match_view();
    assert_eq!(view.wave, 1);
    assert_eq!(view.live_creeps, 20);
    assert_eq!(view.overrun_cap, 100);
    assert_eq!(view.creeps_per_wave, 20);
    assert_eq!(view.lives, 60);
    assert_eq!(view.leaks, 0);
    assert_eq!(view.players, 2);
    assert_eq!(view.phase, Phase::InMatch.as_u8());
}

#[test]
fn phases_and_refusals_have_words() {
    for phase in [Phase::Waiting, Phase::InMatch, Phase::Over] {
        assert_eq!(Phase::from_u8(phase.as_u8()), phase);
        assert!(!phase.text().is_empty());
    }
    assert_eq!(Phase::from_u8(77), Phase::Waiting);
    for (i, reject) in Reject::ALL.iter().enumerate() {
        assert!(!reject.text().is_empty());
        for other in &Reject::ALL[i + 1..] {
            assert_ne!(reject.text(), other.text());
        }
    }
}
