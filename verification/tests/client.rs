//! What a client decides, and what it shows.

use greentd::config::{Address, Config, Mode};
use greentd::data::balance::TowerDef;
use greentd::data::components::{CreepHp, MatchView, PlayerView, TowerVis};
use greentd::data::reject::Reject;
use greentd::map::{GoalDef, LaneDef, MapData, MapDef};
use greentd::message::{Message, Piece};
use greentd::net::client::{handshake_retry_secs, local_view, HandshakeStatus, LocalIdentity};
use greentd::net::messages::{ClientCmd, HandshakeAck, PlayerId, ServerNotice};
use greentd::net::server::Handle;
use greentd::scalar::Scalar;
use greentd::ui::hud::{ClientUi, Defeat, Pressed};
use greentd::ui::visuals::{camera_size, creep_color, ground_color, tower_color, tower_size};
use greentd::vector::{IVec2, Vec2};

fn s(x: f32) -> Scalar {
    Scalar { bits: x.to_bits() }
}

fn f(x: Scalar) -> f32 {
    f32::from_bits(x.bits)
}

fn p(x: f32, y: f32) -> Vec2 {
    Vec2::new(s(x), s(y))
}

/// Two lanes, 2100 units long, ending at one goal.
fn board() -> MapData {
    let lane = |name: &str, x: f32| LaneDef {
        name: name.to_string(),
        spawn: p(x, 700.0),
        waypoints: vec![p(x, 700.0), p(x, -700.0), p(0.0, -700.0)],
    };
    MapData::from_def(MapDef {
        id: "short".to_string(),
        name: "Short".to_string(),
        tiles_x: 16,
        tiles_y: 16,
        tile_size: s(100.0),
        path_clearance: s(95.0),
        goal: GoalDef {
            name: "END".to_string(),
            x: s(0.0),
            y: s(-700.0),
            half_w: s(100.0),
            half_h: s(100.0),
        },
        lanes: vec![lane("Left", -700.0), lane("Right", 700.0)],
        zones: vec![],
    })
    .expect("the board is valid")
}

/// A message, with its numbers printed.
fn printed(message: &Message) -> String {
    let mut text = String::new();
    for piece in &message.pieces {
        match piece {
            Piece::Words(words) => text.push_str(words),
            Piece::Number(number) => text.push_str(&f32::from_bits(number.bits).to_string()),
            Piece::Literal(number) => text.push_str(&format!("{:?}", f32::from_bits(number.bits))),
            Piece::Whole(number) => text.push_str(&format!("{:.0}", f32::from_bits(number.bits))),
        }
    }
    text
}

fn config(player_id: Option<u64>) -> Config {
    let address = Address { host: "127.0.0.1".to_string(), port: 5000 };
    Config {
        mode: Mode::Client,
        tick_hz: 30.0f64.to_bits(),
        server_addr: address.clone(),
        bind_addr: address,
        map: "short".to_string(),
        balance_dir: "assets/balance".to_string(),
        log_filter: String::new(),
        log_dir: None,
        commands_per_second: s(20.0),
        command_burst: 16,
        player_id,
    }
}

// ---------------------------------------------------------------------------
// The handshake
// ---------------------------------------------------------------------------

#[test]
fn a_pinned_identity_is_kept_and_a_fresh_one_is_never_zero() {
    assert_eq!(LocalIdentity::from_config(&config(Some(42))), LocalIdentity(PlayerId(42)));
    assert_ne!(LocalIdentity::from_config(&config(None)).0, PlayerId(0));
}

#[test]
fn a_client_states_its_version_until_it_is_answered() {
    let mut status = HandshakeStatus::default();
    let first = status.knock(None, s(0.1));
    assert!(first.states && first.first);
    assert_eq!(first.clock, Some(handshake_retry_secs()));
    assert_eq!(f(handshake_retry_secs()), 0.25);

    let waits = status.knock(first.clock, s(0.125));
    assert!(!waits.states);
    assert_eq!(waits.clock, Some(s(0.125)));
    let again = status.knock(waits.clock, s(0.125));
    assert!(again.states && !again.first);
    assert_eq!(again.clock, Some(s(0.25)));

    assert!(!status.hear(HandshakeAck::Accepted));
    assert_eq!(status, HandshakeStatus::Accepted);
    assert!(!status.knock(again.clock, s(10.0)).states, "a settled client says nothing");

    assert!(status.hear(HandshakeAck::Refused { reason: "map data".to_string() }));
    assert_eq!(status, HandshakeStatus::Refused("map data".to_string()));
    assert!(!status.knock(None, s(10.0)).states);
}

#[test]
fn a_remote_client_owns_the_one_view_it_was_sent() {
    assert_eq!(local_view(Mode::Client, false, Some(Handle(3))), Some(Handle(3)));
    assert_eq!(local_view(Mode::Client, true, Some(Handle(3))), None);
    assert_eq!(local_view(Mode::Host, false, Some(Handle(3))), None);
    assert_eq!(local_view(Mode::Client, false, None), None);
}

// ---------------------------------------------------------------------------
// Input
// ---------------------------------------------------------------------------

const NOTHING: Pressed =
    Pressed { one: false, two: false, three: false, space: false, left: false, u: false, right: false };

#[test]
fn a_click_is_an_intent_about_the_cell_under_it() {
    let map = board();
    let mut ui = ClientUi::default();
    let at = map.cell_to_world(IVec2 { x: 3, y: 9 });
    assert_eq!(ui.intents(&map, NOTHING, Some(at)), vec![]);
    let keys = Pressed { two: true, left: true, ..NOTHING };
    assert_eq!(ui.intents(&map, keys, Some(at)), vec![ClientCmd::Build { x: 3, y: 9, kind: 1 }]);
    assert_eq!(ui.kind, 1, "the pick stays");
    let keys = Pressed { u: true, right: true, space: true, ..NOTHING };
    assert_eq!(
        ui.intents(&map, keys, Some(at)),
        vec![
            ClientCmd::CallWave,
            ClientCmd::Upgrade { x: 3, y: 9 },
            ClientCmd::Sell { x: 3, y: 9 },
        ]
    );
}

#[test]
fn a_click_off_the_board_asks_nothing_of_it() {
    let map = board();
    let mut ui = ClientUi::default();
    let everything = Pressed { one: true, two: true, three: true, space: true, left: true, u: true, right: true };
    let off = p(10_000.0, 0.0);
    assert_eq!(ui.intents(&map, everything, Some(off)), vec![ClientCmd::CallWave]);
    assert_eq!(ui.kind, 2, "the highest key counts");
    assert_eq!(ui.intents(&map, everything, None), vec![ClientCmd::CallWave]);
    let one = Pressed { one: true, ..NOTHING };
    assert_eq!(ui.intents(&map, one, None), vec![]);
    assert_eq!(ui.kind, 0);
}

// ---------------------------------------------------------------------------
// Notices
// ---------------------------------------------------------------------------

#[test]
fn a_notice_stays_for_its_time_and_goes() {
    let mut ui = ClientUi::default();
    ui.hear(ServerNotice::Refused(Reject::NotEnoughGold));
    assert_eq!(ui.notice, "not enough gold");
    assert_eq!(f(ui.notice_timer), 2.0);
    ui.decay(s(1.5));
    assert_eq!(ui.notice, "not enough gold");
    ui.decay(s(0.5));
    assert_eq!(ui.notice, "");
    ui.hear(ServerNotice::WaveStarted(12));
    assert_eq!(ui.notice, "wave 12");
    assert_eq!(f(ui.notice_timer), 1.5);
    ui.hear(ServerNotice::Done);
    assert_eq!(ui.notice, "");
    assert_eq!(f(ui.notice_timer), 0.0);
    ui.decay(s(9.0));
    assert_eq!(f(ui.notice_timer), 0.0);
    ui.hear(ServerNotice::GameOver { wave: 3, lives: 0, leaks: 9 });
    assert_eq!(ui.over, Some(Defeat { wave: 3, lives: 0, leaks: 9 }));
}

// ---------------------------------------------------------------------------
// The overlay
// ---------------------------------------------------------------------------

fn basic() -> TowerDef {
    TowerDef {
        key: "basic".to_string(),
        name: "Basic".to_string(),
        cost: 20,
        range: s(349.6),
        damage: s(10.0),
        cooldown: s(0.5),
        splash: s(0.0),
        slow: s(1.0),
        damage_per_level: s(0.45),
        range_per_level: s(0.04),
        slow_duration: s(0.0),
        upgrade_base_cost: 20,
        upgrade_growth: s(0.5),
        next: None,
    }
}

#[test]
fn the_overlay_says_what_the_server_said() {
    let mut ui = ClientUi::default();
    let keys = "1/2/3 pick  LMB build  U upgrade  RMB sell\nSpace: call next wave early\n";
    assert_eq!(printed(&ui.hud(None, None, None)), format!("connecting...\n{keys}"));

    let view = MatchView {
        wave: 7,
        live_creeps: 12,
        overrun_cap: 100,
        creeps_per_wave: 20,
        lives: 60,
        leaks: 1,
        players: 2,
        phase: 1,
    };
    let me = PlayerView { gold: 180, kills: 3 };
    let tower = basic();
    assert_eq!(
        printed(&ui.hud(Some(&view), Some(&me), Some(&tower))),
        format!(
            "wave 7    creeps 12/100   players 2   [in match]\ngold 180   kills 3\n\n[1] Basic  cost 20   range 350\n{keys}"
        )
    );

    ui.hear(ServerNotice::Refused(Reject::Occupied));
    ui.hear(ServerNotice::GameOver { wave: 1234, lives: 0, leaks: 60 });
    let view = MatchView { wave: 1234, phase: 2, ..view };
    assert_eq!(
        printed(&ui.hud(Some(&view), None, None)),
        format!(
            "wave 1234  creeps 12/100   players 2   [over]\n{keys}\ncell occupied\n\nGAME OVER - overrun at wave 1234 (12 creeps)"
        )
    );
    // Without a copy of the match there is no count to show.
    assert_eq!(
        printed(&ui.hud(None, None, None)),
        format!("connecting...\n{keys}\ncell occupied\n\nGAME OVER - overrun at wave 1234")
    );
}

// ---------------------------------------------------------------------------
// Colours
// ---------------------------------------------------------------------------

#[test]
fn colours_and_sizes_are_what_they_look_like() {
    let rgb = |tint: greentd::ui::visuals::Tint| (f(tint.red), f(tint.green), f(tint.blue));
    assert_eq!(rgb(tower_color(0)), (0.90, 0.85, 0.30));
    assert_eq!(rgb(tower_color(1)), (0.85, 0.45, 0.15));
    assert_eq!(rgb(tower_color(2)), (0.35, 0.65, 0.95));
    assert_eq!(rgb(tower_color(200)), rgb(tower_color(0)));

    let hp = |hp: f32, max: f32| CreepHp { hp: s(hp), max: s(max) };
    let tint = |part: f32| (0.15 + 0.70 * part, 0.12 + 0.20 * part, 0.12 + 0.20 * part);
    assert_eq!(rgb(creep_color(&hp(30.0, 40.0))), tint(0.75));
    assert_eq!(rgb(creep_color(&hp(90.0, 40.0))), tint(1.0));
    assert_eq!(rgb(creep_color(&hp(-5.0, 40.0))), tint(0.0));
    assert_eq!(rgb(creep_color(&hp(0.5, 0.1))), tint(0.5), "no creep is divided by less than one");

    let size = |level: u8| f(tower_size(s(100.0), &TowerVis { kind: 0, level }));
    assert_eq!(size(1), 100.0 * (0.60 + 0.07 * 1.0));
    assert_eq!(size(6), 100.0 * (0.60 + 0.07 * 6.0));
    assert_eq!(size(9), size(6));

    let map = board();
    assert_eq!(rgb(ground_color(&map, IVec2 { x: 10, y: 10 })), (0.14, 0.40, 0.17));
    assert_eq!(rgb(ground_color(&map, IVec2 { x: 0, y: 8 })), (0.30, 0.24, 0.16));
    assert_eq!(camera_size(&map), p(1696.0, 1696.0));
}
