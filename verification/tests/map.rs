//! The board: what is refused, what a lane is, and what two peers must agree on.
//!
//! Data that a person hand-writes needs a validator with opinions, and that is
//! what most of this file is: every refusal below names the field, so a broken
//! map is a message rather than a board that loads and cannot be played.

use greentd::config::check_map_against_balance;
use greentd::data::balance::canonical::fnv1a_64;
use greentd::data::balance::{
    BalanceData, BalanceError, CreepDef, DifficultyDef, GameModeDef, LoseRule, MatchRules, TowerDef, WaveScaling, WaveTable,
};
use greentd::map::{GoalDef, LaneDef, MapData, MapDef, MapError, ZoneDef};
use greentd::message::{Message, Piece};
use greentd::net::protocol::ProtocolVersion;
use greentd::scalar::Scalar;
use greentd::vector::{IVec2, Vec2};

fn s(x: f32) -> Scalar {
    Scalar { bits: x.to_bits() }
}

fn f(x: Scalar) -> f32 {
    f32::from_bits(x.bits)
}

/// A tower family that is sold for these numbers.
fn tower(key: &str, cost: u32, range: f32, damage: f32, cooldown: f32) -> TowerDef {
    TowerDef {
        key: key.to_string(),
        name: key.to_uppercase(),
        cost,
        range: s(range),
        damage: s(damage),
        cooldown: s(cooldown),
        splash: s(0.0),
        slow: s(1.0),
        damage_per_level: s(0.45),
        range_per_level: s(0.04),
        slow_duration: s(0.0),
        upgrade_base_cost: cost,
        upgrade_growth: s(0.5),
        next: None,
    }
}

/// A full set of tables.
fn tables() -> BalanceData {
    let mut cannon = tower("cannon", 60, 420.0, 30.0, 1.5);
    cannon.splash = s(120.0);
    let mut frost = tower("frost", 40, 380.0, 4.0, 1.0);
    frost.slow = s(0.6);
    frost.slow_duration = s(1.5);
    let creep = |key: &str| CreepDef {
        key: key.to_string(),
        name: key.to_uppercase(),
        hp_mult: s(1.0),
        speed_mult: s(1.0),
        bounty_mult: s(1.0),
    };
    BalanceData {
        match_rules: MatchRules {
            start_gold: 200,
            overrun_cap: 100,
            lose_rule: LoseRule::Lives,
            starting_lives: 60,
            wave_interval: s(20.0),
            first_wave_delay: s(5.0),
            call_wave_cooldown: s(8.0),
            sell_refund_percent: 75,
            seed: 0x5eed,
        },
        towers: vec![tower("basic", 20, 350.0, 10.0, 0.5), cannon, frost],
        creeps: vec![creep("grunt"), creep("runner")],
        waves: WaveTable {
            scaling: WaveScaling {
                hp_base: s(30.0),
                hp_growth: s(0.2),
                speed_base: s(120.0),
                speed_growth: s(2.0),
                bounty_base: s(2.0),
                bounty_per_wave: s(0.25),
                count_base: s(1.0),
                count_per_wave: s(0.5),
                spawn_jitter: s(0.45),
                spawn_gap: s(80.0),
                spawn_arc: s(1600.0),
            },
            waves: vec![],
            max_wave: None,
        },
        difficulties: vec![DifficultyDef {
            key: "normal".to_string(),
            name: "Normal".to_string(),
            hp_mult: s(1.0),
            speed_mult: s(1.0),
            bounty_mult: s(1.0),
        }],
        modes: vec![GameModeDef {
            key: "long".to_string(),
            name: "Long".to_string(),
            short_game: false,
        }],
    }
}

/// A message, with its numbers printed.
fn printed(message: &Message) -> String {
    let mut text = String::new();
    for piece in &message.pieces {
        match piece {
            Piece::Words(words) => text.push_str(words),
            Piece::Number(number) => text.push_str(&f32::from_bits(number.bits).to_string()),
            Piece::Literal(number) => text.push_str(&format!("{:?}", f32::from_bits(number.bits))),
            Piece::Whole(number) => text.push_str(&format!("{:.0}", f32::from_bits(number.bits))),
        }
    }
    text
}

fn p(x: f32, y: f32) -> Vec2 {
    Vec2::new(s(x), s(y))
}

/// The hash of a board: of its geometry, printed.
fn hash(map: &MapData) -> u64 {
    fnv1a_64(printed(&map.geometry()).as_bytes())
}

/// One valid lane down the left-hand side of the board below.
fn lane(name: &str) -> LaneDef {
    LaneDef {
        name: name.to_string(),
        spawn: p(-700.0, 700.0),
        waypoints: vec![p(-700.0, 700.0), p(-700.0, -700.0), p(0.0, -700.0)],
    }
}

/// A small board that *is* valid, for the tests that break one thing at a time.
fn valid_def() -> MapDef {
    MapDef {
        id: "test".to_string(),
        name: "Test".to_string(),
        tiles_x: 16,
        tiles_y: 16,
        tile_size: s(100.0),
        path_clearance: s(95.0),
        goal: GoalDef {
            name: "END".to_string(),
            x: s(0.0),
            y: s(-700.0),
            half_w: s(100.0),
            half_h: s(100.0),
        },
        lanes: vec![lane("Left"), lane("Right")],
        zones: vec![ZoneDef {
            name: "LeftHalf".to_string(),
            min: p(-800.0, -800.0),
            max: p(0.0, 800.0),
        }],
    }
}

fn valid() -> MapData {
    MapData::from_def(valid_def()).expect("the valid board")
}

// ---------------------------------------------------------------------------
// What the validator refuses
// ---------------------------------------------------------------------------

/// The validator's message for a board, or `None` if it accepted it.
fn refusal(def: MapDef) -> Option<String> {
    MapData::from_def(def).err().map(|why| printed(&why))
}

#[test]
fn a_board_without_lanes_is_refused() {
    let mut def = valid_def();
    def.lanes.clear();
    let why = refusal(def).expect("a board needs lanes");
    assert!(why.contains("lanes"), "{why}");
}

#[test]
fn a_lane_that_does_not_end_at_the_goal_is_refused() {
    let mut def = valid_def();
    def.lanes[0].waypoints = vec![p(-700.0, 700.0), p(-700.0, 0.0)];
    let why = refusal(def).expect("the lane stops short");
    assert!(why.contains("lanes[0]") && why.contains("goal"), "{why}");
}

#[test]
fn a_spawn_point_that_is_not_the_first_waypoint_is_refused() {
    let mut def = valid_def();
    def.lanes[1].spawn = p(0.0, 0.0);
    let why = refusal(def).expect("the spawn is somewhere else");
    assert!(why.contains("lanes[1].spawn"), "{why}");
}

#[test]
fn a_waypoint_off_the_board_is_refused() {
    let mut def = valid_def();
    def.lanes[0].waypoints[1] = p(-900.0, 0.0); // the board is +-800
    let why = refusal(def).expect("that point is off the board");
    assert!(
        why.contains("waypoints[1]") && why.contains("board"),
        "{why}"
    );
}

#[test]
fn a_lane_with_nowhere_to_walk_is_refused() {
    let mut def = valid_def();
    def.lanes[0].waypoints = vec![p(0.0, -700.0), p(0.0, -700.0)];
    def.lanes[0].spawn = p(0.0, -700.0);
    let why = refusal(def).expect("a lane of no length is not a lane");
    assert!(why.contains("shorter than a tile"), "{why}");
}

#[test]
fn a_goal_with_no_size_is_refused() {
    let mut def = valid_def();
    def.goal.half_h = s(0.0);
    let why = refusal(def).expect("the goal must be a region");
    assert!(why.contains("goal"), "{why}");
}

#[test]
fn a_board_with_no_tiles_is_refused() {
    let mut def = valid_def();
    def.tiles_x = 0;
    let why = refusal(def).expect("a board of no tiles");
    assert!(why.contains("tiles_x"), "{why}");
}

#[test]
fn nothing_that_is_not_finite_is_compared() {
    for bad in [f32::NAN, f32::INFINITY, f32::NEG_INFINITY] {
        let mut def = valid_def();
        def.goal.x = s(bad);
        assert_eq!(refusal(def).as_deref(), Some("goal: not a finite point"));
        let mut def = valid_def();
        def.goal.y = s(bad);
        assert_eq!(refusal(def).as_deref(), Some("goal: not a finite point"));
        let mut def = valid_def();
        def.goal.half_w = s(bad);
        assert!(refusal(def).expect("a goal has a size").contains("half_w"));
        let mut def = valid_def();
        def.lanes[1].waypoints[1].x = s(bad);
        assert_eq!(
            refusal(def).as_deref(),
            Some("lanes[1].waypoints[1]: not a finite point")
        );
        let mut def = valid_def();
        def.tile_size = s(bad);
        assert!(refusal(def).is_some());
    }
    let mut def = valid_def();
    def.goal.half_h = s(f32::INFINITY);
    assert_eq!(
        refusal(def).as_deref(),
        Some("goal: half_w and half_h must be finite")
    );
    let mut def = valid_def();
    def.tile_size = s(f32::INFINITY);
    assert!(refusal(def).expect("no lane is that long").contains("shorter than a tile"));
}

#[test]
fn what_peers_do_not_compare_may_be_boundless() {
    let mut def = valid_def();
    def.path_clearance = s(f32::INFINITY);
    let map = MapData::from_def(def).expect("a board is allowed to be badly tuned");
    assert!(!map.is_buildable(IVec2 { x: 8, y: 8 }));
    // A spawn point is compared by its distance, and "not a number" is not far.
    let mut def = valid_def();
    def.lanes[0].spawn.x = s(f32::NAN);
    assert_eq!(refusal(def), None);
    let mut def = valid_def();
    def.lanes[1].spawn.y = s(f32::INFINITY);
    assert!(refusal(def).expect("infinitely far").contains("lanes[1].spawn"));
}

// ---------------------------------------------------------------------------
// What two peers must agree on
// ---------------------------------------------------------------------------

#[test]
fn the_same_board_hashes_the_same_and_a_moved_waypoint_does_not() {
    let one = valid();
    let two = valid();
    assert_eq!(hash(&one), hash(&two), "the same file, the same hash");

    // A board is rules, not decoration: moving one waypoint changes where the
    // creeps walk and therefore every leak, so the hash has to move.
    let mut def = valid_def();
    let moved = MapData::from_def(def.clone()).expect("the valid board");
    def.lanes[0].waypoints[1].x = s(-600.0);
    let shifted = MapData::from_def(def).expect("still valid, one waypoint along");
    assert_ne!(hash(&moved), hash(&shifted));
}

#[test]
fn a_board_that_only_gained_a_zone_hashes_the_same() {
    // Zones are decoration and nothing reads them, so they must not be able to
    // make two peers refuse each other.
    let mut def = valid_def();
    let before = hash(&MapData::from_def(def.clone()).expect("valid"));
    def.zones.push(ZoneDef {
        name: "RightHalf".to_string(),
        min: p(0.0, -800.0),
        max: p(800.0, 800.0),
    });
    let after = hash(&MapData::from_def(def).expect("valid"));
    assert_eq!(before, after);
}

#[test]
fn the_clearance_must_leave_the_lanes_shootable() {
    let balance = tables();
    let map = valid();
    let shortest = balance
        .towers
        .iter()
        .map(|tower| f(tower.range))
        .min_by(f32::total_cmp)
        .expect("there are towers");

    assert!(
        f(map.path_clearance) < shortest,
        "the board asks for {} units of clearance and the shortest tower reaches \
         {shortest}: nothing could be built within range of a lane",
        f(map.path_clearance)
    );
    assert!(check_map_against_balance(&map, &balance).is_ok());

    // And the pairing is checked at startup, so this cannot quietly stop being
    // true when somebody scales a board.
    let broken = MapData::from_def(MapDef {
        path_clearance: s(10_000.0),
        ..valid_def()
    });
    let broken = broken.expect("a board is allowed to be badly tuned");
    assert!(
        f(broken.path_clearance) > shortest,
        "which is exactly the shape the startup check refuses"
    );
    match check_map_against_balance(&broken, &balance) {
        Err(BalanceError::Invalid { field, .. }) => assert!(field.contains("path_clearance"), "{field}"),
        other => panic!("not refused: {other:?}"),
    }
}

#[test]
fn the_map_is_part_of_the_protocol_version() {
    // Two peers on the same tables but different boards must refuse each other:
    // the board decides where creeps walk and where the goal is, so a client
    // drawing a different one would be lying about every leak.
    let ours = ProtocolVersion::current(7, hash(&valid()));
    let theirs = ProtocolVersion {
        map_hash: ours.map_hash ^ 1,
        ..ours
    };
    let reason = ours.disagreement(&theirs).expect("a different board");
    assert!(reason.contains("map data"), "{reason}");
    assert!(!reason.contains("balance data"), "{reason}");
}

// ---------------------------------------------------------------------------
// Lanes
// ---------------------------------------------------------------------------

#[test]
fn a_lane_is_walked_from_its_spawn_point_to_the_goal() {
    let map = valid();
    let lane = &map.lanes[0];
    assert_eq!(f(lane.total), 1400.0 + 700.0);
    assert_eq!(lane.spawn(), p(-700.0, 700.0));
    assert_eq!(lane.sample(s(0.0)), lane.spawn());
    assert_eq!(lane.sample(s(100.0)), p(-700.0, 600.0));
    assert_eq!(lane.sample(s(1400.0)), p(-700.0, -700.0));
    assert_eq!(lane.sample(s(1750.0)), p(-350.0, -700.0));
    assert_eq!(lane.sample(lane.total), map.goal.centre);
    assert_eq!(lane.sample(s(99_999.0)), map.goal.centre, "a lane does not wrap around");
    assert_eq!(lane.sample(s(-5.0)), lane.spawn());
    assert_eq!(f(lane.distance_to(p(-700.0, 0.0))), 0.0);
    assert_eq!(f(lane.distance_to(p(-600.0, 0.0))), 100.0);
    assert_eq!(f(lane.distance_to(p(0.0, 0.0))), 700.0);
}

#[test]
fn a_distance_that_is_no_number_stands_at_the_spawn_point() {
    let map = valid();
    let lane = &map.lanes[0];
    for bad in [f32::NAN, f32::INFINITY, f32::NEG_INFINITY] {
        assert!(lane.sample(s(bad)).is_finite(), "sampling {bad}");
    }
    assert_eq!(lane.sample(s(f32::NAN)), lane.spawn());
}

// ---------------------------------------------------------------------------
// Cells
// ---------------------------------------------------------------------------

#[test]
fn cells_survive_the_world() {
    let map = valid();
    assert_eq!(map.half_extents(), p(800.0, 800.0));
    for y in 0..16 {
        for x in 0..16 {
            let cell = IVec2 { x, y };
            assert_eq!(map.world_to_cell(map.cell_to_world(cell)), cell);
        }
    }
    assert_eq!(map.cell_to_world(IVec2 { x: 0, y: 0 }), p(-750.0, -750.0));
    assert!(!map.in_bounds(IVec2 { x: 16, y: 0 }));
    assert!(!map.in_bounds(IVec2 { x: 0, y: -1 }));
    assert!(map.in_bounds(IVec2 { x: 15, y: 15 }));
}

#[test]
fn a_tower_may_stand_where_no_lane_is_near() {
    let map = valid();
    assert!(!map.is_buildable(map.world_to_cell(map.lanes[0].sample(s(0.0)))));
    assert!(map.is_buildable(IVec2 { x: 10, y: 10 }));
    assert!(!map.is_buildable(IVec2 { x: -1, y: 0 }), "off the board");
    let lane_cell = map.cell_to_world(IVec2 { x: 0, y: 8 });
    assert_eq!(f(map.path_distance(lane_cell)), 50.0);
}

#[test]
fn every_error_prints_what_it_is_about() {
    let read = MapError::Read { path: "nope.ron".to_string(), message: "gone".to_string() };
    assert_eq!(printed(&read.text()), "map: nope.ron: gone");
    let parse = MapError::Parse { path: "broken.ron".to_string(), message: "1:9".to_string() };
    assert_eq!(printed(&parse.text()), "map: broken.ron: 1:9");
    let invalid = MapError::Invalid { id: "test".to_string(), why: Message::new("lanes: none") };
    assert_eq!(printed(&invalid.text()), "map: test: lanes: none");
}
