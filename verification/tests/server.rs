//! What the server decides: admission, budgets, the mirror and the end.

use greentd::config::Mode;
use greentd::data::balance::{
    BalanceData, CreepDef, DifficultyDef, GameModeDef, LoseRule, MatchRules, TowerDef, WaveScaling, WaveTable,
};
use greentd::data::components::{MatchView, PlayerView, TowerAt, TowerVis};
use greentd::data::reject::Reject;
use greentd::map::{GoalDef, LaneDef, MapData, MapDef};
use greentd::net::messages::{ClientCmd, Handshake, PlayerId, ServerNotice};
use greentd::net::protocol::ProtocolVersion;
use greentd::net::server::intents::{obey, spend};
use greentd::net::server::mirror::{
    age_refusal, match_change, notices_of, purse_change, reset_match, tick, REFUSAL_GRACE_FRAMES,
};
use greentd::net::server::{player_key, Admission, Handle, Net};
use greentd::ratelimit::TokenBucket;
use greentd::scalar::Scalar;
use greentd::sim::{CreepId, PlayerKey, Sim, SimEvent};
use greentd::vector::{IVec2, Vec2};
use std::sync::Arc;

fn s(x: f32) -> Scalar {
    Scalar { bits: x.to_bits() }
}

fn f(x: Scalar) -> f32 {
    f32::from_bits(x.bits)
}

/// A tower family that is sold for these numbers.
fn tower(key: &str, cost: u32, range: f32, damage: f32, cooldown: f32) -> TowerDef {
    TowerDef {
        key: key.to_string(),
        name: key.to_uppercase(),
        cost,
        range: s(range),
        damage: s(damage),
        cooldown: s(cooldown),
        splash: s(0.0),
        slow: s(1.0),
        damage_per_level: s(0.45),
        range_per_level: s(0.04),
        slow_duration: s(0.0),
        upgrade_base_cost: cost,
        upgrade_growth: s(0.5),
        next: None,
    }
}

/// A full set of tables.
fn tables() -> BalanceData {
    let mut cannon = tower("cannon", 60, 420.0, 30.0, 1.5);
    cannon.splash = s(120.0);
    let mut frost = tower("frost", 40, 380.0, 4.0, 1.0);
    frost.slow = s(0.6);
    frost.slow_duration = s(1.5);
    let creep = |key: &str| CreepDef {
        key: key.to_string(),
        name: key.to_uppercase(),
        hp_mult: s(1.0),
        speed_mult: s(1.0),
        bounty_mult: s(1.0),
    };
    BalanceData {
        match_rules: MatchRules {
            start_gold: 200,
            overrun_cap: 100,
            lose_rule: LoseRule::Lives,
            starting_lives: 60,
            wave_interval: s(20.0),
            first_wave_delay: s(5.0),
            call_wave_cooldown: s(8.0),
            sell_refund_percent: 75,
            seed: 0x5eed,
        },
        towers: vec![tower("basic", 20, 350.0, 10.0, 0.5), cannon, frost],
        creeps: vec![creep("grunt"), creep("runner")],
        waves: WaveTable {
            scaling: WaveScaling {
                hp_base: s(30.0),
                hp_growth: s(0.2),
                speed_base: s(120.0),
                speed_growth: s(2.0),
                bounty_base: s(2.0),
                bounty_per_wave: s(0.25),
                count_base: s(1.0),
                count_per_wave: s(0.5),
                spawn_jitter: s(0.45),
                spawn_gap: s(80.0),
                spawn_arc: s(1600.0),
            },
            waves: vec![],
            max_wave: None,
        },
        difficulties: vec![DifficultyDef {
            key: "normal".to_string(),
            name: "Normal".to_string(),
            hp_mult: s(1.0),
            speed_mult: s(1.0),
            bounty_mult: s(1.0),
        }],
        modes: vec![GameModeDef {
            key: "long".to_string(),
            name: "Long".to_string(),
            short_game: false,
        }],
    }
}

fn p(x: f32, y: f32) -> Vec2 {
    Vec2::new(s(x), s(y))
}

/// Two lanes, 2100 units long, ending at one goal.
fn board() -> MapData {
    let lane = |name: &str, x: f32| LaneDef {
        name: name.to_string(),
        spawn: p(x, 700.0),
        waypoints: vec![p(x, 700.0), p(x, -700.0), p(0.0, -700.0)],
    };
    MapData::from_def(MapDef {
        id: "short".to_string(),
        name: "Short".to_string(),
        tiles_x: 16,
        tiles_y: 16,
        tile_size: s(100.0),
        path_clearance: s(95.0),
        goal: GoalDef {
            name: "END".to_string(),
            x: s(0.0),
            y: s(-700.0),
            half_w: s(100.0),
            half_h: s(100.0),
        },
        lanes: vec![lane("Left", -700.0), lane("Right", 700.0)],
        zones: vec![],
    })
    .expect("the board is valid")
}

const TICK: f32 = 1.0 / 30.0;
const BURST: u32 = 4;
const RATE: f32 = 30.0;

fn version() -> ProtocolVersion {
    ProtocolVersion::current(1, 2)
}

fn handshake(id: u64) -> Handshake {
    Handshake { version: version(), id: PlayerId(id) }
}

fn sim() -> Sim {
    Sim::new(Arc::new(tables()), Arc::new(board()))
}

/// A server with one player on connection 11, whose view is 21.
fn running() -> (Net, Sim, PlayerKey) {
    let (mut net, mut sim) = (Net::new(), sim());
    let key = PlayerKey(7);
    net.join(&mut sim, key, Handle(11), Handle(21), BURST, s(RATE));
    (net, sim, key)
}

/// An open cell.
const CELL: IVec2 = IVec2 { x: 10, y: 10 };

fn build() -> ClientCmd {
    ClientCmd::Build { x: CELL.x, y: CELL.y, kind: 0 }
}

// ---------------------------------------------------------------------------
// Admission
// ---------------------------------------------------------------------------

#[test]
fn a_peer_that_speaks_the_same_version_joins() {
    let (mut net, mut sim) = (Net::new(), sim());
    let admission = net.greet(&version(), Handle(1), &handshake(7));
    assert_eq!(admission, Admission::Joins { key: PlayerKey(7), replaces: None });
    let joined = net.join(&mut sim, PlayerKey(7), Handle(1), Handle(2), BURST, s(RATE));
    assert_eq!(joined.view, PlayerView { gold: 200, kills: 0 });
    assert_eq!(joined.stale, None);
    assert_eq!(net.links.get(&PlayerKey(7)), Some(Handle(1)));
    assert_eq!(net.views.get(&PlayerKey(7)), Some(Handle(2)));
    assert_eq!(net.buckets.get(&PlayerKey(7)).map(|b| f(b.tokens())), Some(4.0));
    assert_eq!(sim.players_connected(), 1);
    assert_eq!(net.player_of(Handle(1)), Some(PlayerKey(7)));
    assert_eq!(net.player_of(Handle(2)), None);
}

#[test]
fn a_peer_that_speaks_another_version_is_told_why() {
    let net = Net::new();
    let stale = Handshake {
        version: ProtocolVersion { schema: 3, ..version() },
        id: PlayerId(7),
    };
    let admission = net.greet(&version(), Handle(1), &stale);
    assert_eq!(
        admission,
        Admission::Refused { reason: "schema revision (server 4, client 3)".to_string() }
    );
}

#[test]
fn a_repeated_handshake_makes_no_second_player() {
    let (net, _, key) = running();
    assert_eq!(net.greet(&version(), Handle(11), &handshake(7)), Admission::Known(key));
    // Not even under another name, and not even with another version.
    let other = Handshake {
        version: ProtocolVersion { schema: 3, ..version() },
        id: PlayerId(8),
    };
    assert_eq!(net.greet(&version(), Handle(11), &other), Admission::Known(key));
}

#[test]
fn the_newest_connection_with_an_identity_is_the_player() {
    let (mut net, mut sim, key) = running();
    sim.try_build(key, CELL, 0).expect("the build");
    assert_eq!(
        net.greet(&version(), Handle(12), &handshake(7)),
        Admission::Joins { key, replaces: Some(Handle(11)) }
    );
    let joined = net.join(&mut sim, key, Handle(12), Handle(22), BURST, s(RATE));
    assert_eq!(joined.stale, Some(Handle(21)), "the view before it goes");
    assert_eq!(net.links.len(), 1);
    assert_eq!(net.player_of(Handle(11)), None);
    // The old connection's end is nobody's end.
    assert_eq!(net.leave(&mut sim, Handle(11)), None);
    assert_eq!(sim.players_connected(), 1);
    assert!(sim.towers.contains_key(&CELL));
}

#[test]
fn whoever_left_comes_back_as_the_same_player() {
    let (mut net, mut sim, key) = running();
    sim.try_build(key, CELL, 0).expect("the build");
    assert_eq!(net.leave(&mut sim, Handle(11)), Some((key, Some(Handle(21)))));
    assert!(net.links.is_empty() && net.views.is_empty() && net.buckets.is_empty());
    assert_eq!(sim.players_connected(), 0);
    assert_eq!(net.leave(&mut sim, Handle(11)), None, "once");
    assert_eq!(
        net.greet(&version(), Handle(99), &handshake(7)),
        Admission::Joins { key, replaces: None }
    );
    net.join(&mut sim, key, Handle(99), Handle(23), BURST, s(RATE));
    assert_eq!(sim.players.get(&key).map(|p| p.gold), Some(180));
    assert_eq!(player_key(PlayerId(7)), key);
}

// ---------------------------------------------------------------------------
// Intents
// ---------------------------------------------------------------------------

#[test]
fn a_stranger_is_dropped_without_an_answer() {
    let (mut net, mut sim, _) = running();
    let notices = net.serve(&mut sim, PlayerKey(99), &vec![build()], s(TICK), BURST, s(RATE));
    assert_eq!(notices, Some(vec![]));
    assert!(sim.towers.is_empty());
    assert!(!net.buckets.contains_key(&PlayerKey(99)));
}

#[test]
fn every_command_is_answered_in_order() {
    let (mut net, mut sim, key) = running();
    let cmds = vec![
        build(),
        build(),
        ClientCmd::Upgrade { x: CELL.x, y: CELL.y },
        ClientCmd::CallWave,
    ];
    let notices = net.serve(&mut sim, key, &cmds, s(0.0), BURST, s(RATE));
    assert_eq!(
        notices,
        Some(vec![
            ServerNotice::Done,
            ServerNotice::Refused(Reject::Occupied),
            ServerNotice::Done,
            ServerNotice::Done,
        ])
    );
    assert_eq!(sim.towers.get(&CELL).map(|t| t.level), Some(2));
    assert_eq!(f(sim.wave_timer), 0.0);
    assert_eq!(net.buckets.get(&key).map(|b| f(b.tokens())), Some(0.0));
}

#[test]
fn a_flood_is_cut_down_to_the_burst_and_answered_once() {
    let (mut net, mut sim, key) = running();
    let cmds = vec![ClientCmd::Sell { x: 1, y: 1 }; 20];
    let notices = net
        .serve(&mut sim, key, &cmds, s(0.0), BURST, s(RATE))
        .expect("there is room");
    assert_eq!(notices.len(), BURST as usize + 1);
    assert_eq!(notices[..4], [ServerNotice::Refused(Reject::NoSuchTower); 4]);
    assert_eq!(notices[4], ServerNotice::Refused(Reject::RateLimited));
    // A frame later one more command is affordable, and no backlog is waiting.
    let notices = net
        .serve(&mut sim, key, &vec![ClientCmd::CallWave; 2], s(0.04), BURST, s(RATE))
        .expect("there is room");
    assert_eq!(notices, vec![ServerNotice::Done, ServerNotice::Refused(Reject::RateLimited)]);
}

#[test]
fn a_budget_is_spent_one_token_a_command() {
    let mut bucket = TokenBucket::new(3, s(1.0));
    assert_eq!(spend(&mut bucket, 2), 2);
    assert_eq!(f(bucket.tokens()), 1.0);
    assert_eq!(spend(&mut bucket, 5), 1);
    assert_eq!(spend(&mut bucket, 5), 0);
}

#[test]
fn a_command_the_match_has_no_room_for_is_not_carried_out() {
    let (mut net, mut sim, key) = running();
    sim.try_build(key, CELL, 0).expect("the build");
    let mut tower = sim.towers.get(&CELL).expect("it stands");
    tower.level = 255;
    sim.towers.insert(CELL, tower);
    let mut rich = sim.players.get(&key).expect("joined");
    rich.gold = 1_000_000;
    sim.players.insert(key, rich);
    let upgrade = ClientCmd::Upgrade { x: CELL.x, y: CELL.y };
    assert_eq!(obey(&mut sim, key, upgrade), None);
    assert_eq!(sim.towers.get(&CELL).map(|t| t.level), Some(255));
    assert_eq!(net.serve(&mut sim, key, &vec![upgrade], s(0.0), BURST, s(RATE)), None);
}

// ---------------------------------------------------------------------------
// The mirror
// ---------------------------------------------------------------------------

#[test]
fn a_wave_is_told_to_everybody_once() {
    let (_, mut sim, key) = running();
    assert_eq!(tick(&mut sim, s(TICK)), Some(vec![]));
    sim.call_wave(key).expect("the call");
    assert_eq!(tick(&mut sim, s(TICK)), Some(vec![ServerNotice::WaveStarted(1)]));
    let events = vec![
        SimEvent::CreepKilled(CreepId(3)),
        SimEvent::WaveStarted(8),
        SimEvent::Leaked(CreepId(4)),
        SimEvent::GameOver,
    ];
    assert_eq!(notices_of(&events), vec![ServerNotice::WaveStarted(8)]);
}

#[test]
fn the_mirror_of_the_creeps_follows_the_board() {
    let (mut net, mut sim, key) = running();
    sim.call_wave(key).expect("the call");
    sim.step(s(TICK));
    let plan = net.plan_creeps(&sim);
    assert_eq!(plan.new.len(), 2);
    assert!(plan.gone.is_empty() && plan.shown.is_empty());
    for (i, new) in plan.new.iter().enumerate() {
        net.mirror_creep(new.id, Handle(100 + i as u64));
        assert_eq!(f(new.hp.hp), 30.0);
        assert_eq!(f(new.hp.max), 30.0);
    }
    sim.step(s(TICK));
    let plan = net.plan_creeps(&sim);
    assert!(plan.gone.is_empty() && plan.new.is_empty());
    assert_eq!(plan.shown.len(), 2);
    let (_, creep) = sim.creeps.entry(0);
    let pos = creep.pos(&sim.map);
    assert_eq!(plan.shown[0].mirror, Handle(100));
    assert_eq!((plan.shown[0].vis.x, plan.shown[0].vis.y), (pos.x, pos.y));

    let (id, _) = sim.creeps.entry(0);
    sim.creeps.remove(&id);
    let plan = net.plan_creeps(&sim);
    assert_eq!(plan.gone, vec![Handle(100)]);
    assert_eq!(plan.shown.len(), 1);
    assert!(!net.creeps.contains_key(&id));
}

#[test]
fn the_mirror_of_the_towers_follows_the_board() {
    let (mut net, mut sim, key) = running();
    sim.try_build(key, CELL, 1).expect("the build");
    let plan = net.plan_towers(&sim);
    assert_eq!(plan.new.len(), 1);
    assert_eq!(plan.new[0].at, TowerAt { x: 10, y: 10 });
    assert_eq!(plan.new[0].vis, TowerVis { kind: 1, level: 1 });
    net.mirror_tower(plan.new[0].cell, Handle(300));
    sim.try_upgrade(key, CELL).expect("the upgrade");
    let plan = net.plan_towers(&sim);
    assert_eq!(plan.shown.len(), 1);
    assert_eq!(plan.shown[0].vis, TowerVis { kind: 1, level: 2 });
    sim.try_sell(key, CELL).expect("the sale");
    let plan = net.plan_towers(&sim);
    assert_eq!(plan.gone, vec![Handle(300)]);
    assert!(net.towers.is_empty());
}

#[test]
fn what_has_not_changed_is_not_written() {
    let (_, mut sim, key) = running();
    let view = sim.match_view();
    assert_eq!(match_change(&sim, &view), None);
    let stale = MatchView { wave: 9, ..view };
    assert_eq!(match_change(&sim, &stale), Some(view));

    let purse = PlayerView { gold: 200, kills: 0 };
    assert_eq!(purse_change(&sim, key, &purse), None);
    assert_eq!(purse_change(&sim, PlayerKey(99), &purse), None);
    sim.try_build(key, CELL, 0).expect("the build");
    assert_eq!(purse_change(&sim, key, &purse), Some(PlayerView { gold: 180, kills: 0 }));
}

#[test]
fn the_end_is_told_once_and_a_rematch_can_be_lost_again() {
    let (mut net, mut sim, _) = running();
    assert_eq!(net.announce(&sim), None);
    sim.over = true;
    sim.wave = 12;
    sim.lives = 0;
    sim.leaks = 61;
    let notice = ServerNotice::GameOver { wave: 12, lives: 0, leaks: 61 };
    assert_eq!(net.announce(&sim), Some(notice));
    assert_eq!(net.announce(&sim), None);
    reset_match(&mut sim, &mut net);
    assert!(!sim.over && !net.announced_over);
    assert_eq!(sim.wave, 0);
    assert_eq!(net.announce(&sim), None);
    sim.over = true;
    assert_eq!(
        net.announce(&sim),
        Some(ServerNotice::GameOver { wave: 0, lives: 60, leaks: 0 })
    );
}

#[test]
fn a_refused_peer_is_let_down_over_a_few_frames() {
    let mut grace = REFUSAL_GRACE_FRAMES;
    let mut frames = 0;
    while let Some(left) = age_refusal(grace) {
        grace = left;
        frames += 1;
    }
    assert_eq!(frames, 2);
}

#[test]
fn a_host_reads_its_own_view() {
    let (net, _, _) = running();
    assert_eq!(net.host_view(Mode::Host, false, PlayerId(7)), Some(Handle(21)));
    assert_eq!(net.host_view(Mode::Host, true, PlayerId(7)), None);
    assert_eq!(net.host_view(Mode::Host, false, PlayerId(8)), None);
    assert_eq!(net.host_view(Mode::Server, false, PlayerId(7)), None);
}

#[test]
fn a_budget_affords_its_whole_tokens() {
    for (earned, afforded) in [(0.0, 0), (0.99, 0), (1.0, 1), (2.5, 2), (4.999, 4), (100.0, 5)] {
        let mut bucket = TokenBucket::new(5, s(1.0));
        assert_eq!(spend(&mut bucket, 9), 5, "a full bucket affords its burst");
        bucket.refill(s(earned));
        assert_eq!(spend(&mut bucket, 3), afforded.min(3));
        assert_eq!(spend(&mut bucket, 9), afforded.saturating_sub(3));
        assert!(f(bucket.tokens()) < 1.0);
    }
}
