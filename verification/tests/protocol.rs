//! The protocol version: what two peers must agree on before one admits the
//! other.
//!
//! The version is a function of the loaded tables, the board and one constant,
//! so it can be judged without a socket.

use greentd::data::balance::canonical::fnv1a_64;
use greentd::data::balance::{
    BalanceData, CreepDef, DifficultyDef, GameModeDef, LoseRule, MatchRules, TowerDef, WaveScaling, WaveTable,
};
use greentd::net::protocol::{ProtocolVersion, SCHEMA_REVISION};
use greentd::scalar::Scalar;

fn s(x: f32) -> Scalar {
    Scalar { bits: x.to_bits() }
}

/// A tower family that is sold for these numbers.
fn tower(key: &str, cost: u32, range: f32, damage: f32, cooldown: f32) -> TowerDef {
    TowerDef {
        key: key.to_string(),
        name: key.to_uppercase(),
        cost,
        range: s(range),
        damage: s(damage),
        cooldown: s(cooldown),
        splash: s(0.0),
        slow: s(1.0),
        damage_per_level: s(0.45),
        range_per_level: s(0.04),
        slow_duration: s(0.0),
        upgrade_base_cost: cost,
        upgrade_growth: s(0.5),
        next: None,
    }
}

/// A full set of tables.
fn tables() -> BalanceData {
    let mut cannon = tower("cannon", 60, 420.0, 30.0, 1.5);
    cannon.splash = s(120.0);
    let mut frost = tower("frost", 40, 380.0, 4.0, 1.0);
    frost.slow = s(0.6);
    frost.slow_duration = s(1.5);
    let creep = |key: &str| CreepDef {
        key: key.to_string(),
        name: key.to_uppercase(),
        hp_mult: s(1.0),
        speed_mult: s(1.0),
        bounty_mult: s(1.0),
    };
    BalanceData {
        match_rules: MatchRules {
            start_gold: 200,
            overrun_cap: 100,
            lose_rule: LoseRule::Lives,
            starting_lives: 60,
            wave_interval: s(20.0),
            first_wave_delay: s(5.0),
            call_wave_cooldown: s(8.0),
            sell_refund_percent: 75,
            seed: 0x5eed,
        },
        towers: vec![tower("basic", 20, 350.0, 10.0, 0.5), cannon, frost],
        creeps: vec![creep("grunt"), creep("runner")],
        waves: WaveTable {
            scaling: WaveScaling {
                hp_base: s(30.0),
                hp_growth: s(0.2),
                speed_base: s(120.0),
                speed_growth: s(2.0),
                bounty_base: s(2.0),
                bounty_per_wave: s(0.25),
                count_base: s(1.0),
                count_per_wave: s(0.5),
                spawn_jitter: s(0.45),
                spawn_gap: s(80.0),
                spawn_arc: s(1600.0),
            },
            waves: vec![],
            max_wave: None,
        },
        difficulties: vec![DifficultyDef {
            key: "normal".to_string(),
            name: "Normal".to_string(),
            hp_mult: s(1.0),
            speed_mult: s(1.0),
            bounty_mult: s(1.0),
        }],
        modes: vec![GameModeDef {
            key: "long".to_string(),
            name: "Long".to_string(),
            short_game: false,
        }],
    }
}

/// The hash of a set of tables: of its canonical form, printed.
fn hash(data: &BalanceData) -> u64 {
    let mut canonical = data.clone();
    canonical.normalise();
    fnv1a_64(format!("{canonical:?}").as_bytes())
}

/// The hash of the board both peers walk.
const BOARD: u64 = 0x0123_4567_89ab_cdef;

/// What a peer with these tables speaks.
fn current(data: &BalanceData) -> ProtocolVersion {
    ProtocolVersion::current(hash(data), BOARD)
}

/// The tables, with one deliberate change, as an out-of-step peer would have
/// loaded them.
fn mutated(change: impl FnOnce(&mut BalanceData)) -> BalanceData {
    let mut data = tables();
    change(&mut data);
    data
}

#[test]
fn two_peers_on_the_same_tables_agree() {
    let ours = current(&tables());
    let theirs = current(&tables());

    assert_eq!(ours, theirs, "the same assets must give the same version");
    assert_eq!(ours.disagreement(&theirs), None);
    assert_eq!(ours.schema, SCHEMA_REVISION);
    assert_eq!(
        ours.text(),
        format!("v{SCHEMA_REVISION} (balance {:016x})", ours.balance_hash)
    );
}

#[test]
fn a_schema_bump_names_the_schema_and_not_the_balance() {
    let ours = current(&tables());
    let theirs = ProtocolVersion {
        schema: ours.schema + 1,
        ..ours
    };

    let reason = ours
        .disagreement(&theirs)
        .expect("a schema bump is a mismatch");
    assert!(reason.contains("schema revision"), "{reason}");
    assert!(
        reason.contains(&ours.schema.to_string()) && reason.contains(&theirs.schema.to_string()),
        "the reason must name both revisions, got: {reason}"
    );
    assert!(
        !reason.contains("balance data"),
        "the balance did not differ, so it must not be blamed: {reason}"
    );
}

#[test]
fn a_balance_change_names_the_balance_and_not_the_schema() {
    let ours = current(&tables());
    let theirs = current(&mutated(|data| {
        // One gold on one tower: the smallest change a player could feel, and
        // one that no schema revision would ever record.
        data.towers[0].cost += 1;
    }));

    assert_eq!(ours.schema, theirs.schema, "the schema itself is unchanged");

    let reason = ours
        .disagreement(&theirs)
        .expect("a changed number is a mismatch");
    assert!(reason.contains("balance data"), "{reason}");
    assert!(
        reason.contains(&format!("{:016x}", ours.balance_hash))
            && reason.contains(&format!("{:016x}", theirs.balance_hash)),
        "the reason must name both hashes, got: {reason}"
    );
    assert!(
        !reason.contains("schema revision"),
        "the schema did not differ, so it must not be blamed: {reason}"
    );
}

#[test]
fn both_parts_are_named_when_both_differ() {
    let ours = current(&tables());
    let theirs = current(&mutated(|data| data.creeps[0].hp_mult = data.creeps[0].hp_mult.plus(s(0.5))));
    let theirs = ProtocolVersion {
        schema: ours.schema + 1,
        ..theirs
    };

    let reason = ours.disagreement(&theirs).expect("both differ");
    assert!(reason.contains("schema revision"), "{reason}");
    assert!(reason.contains("balance data"), "{reason}");
}

#[test]
fn the_version_tracks_the_rules_and_not_the_match() {
    // The seed is a *match* setting, not a rule. Two peers in two matches on the
    // same tables are not in disagreement, so changing only the seed must leave
    // the version alone ...
    let ours = current(&tables());
    let other_match = current(&mutated(|data| data.match_rules.seed ^= 0xdead_beef));
    assert_eq!(
        ours, other_match,
        "the seed is not part of the protocol version"
    );

    // ... while a number the client is allowed to display must move it.
    let retuned = current(&mutated(|data| {
        data.waves.scaling.hp_base = data.waves.scaling.hp_base.plus(s(1.0));
    }));
    assert_ne!(
        ours, retuned,
        "a tuned curve is part of the protocol version"
    );
}

#[test]
fn reordering_the_files_does_not_move_the_version() {
    // The hash canonicalises order, so two peers whose tables were written in
    // different orders still agree -- which is the whole reason the hash
    // normalises rather than hashing the files.
    let ours = current(&tables());
    let reordered = current(&mutated(|data| {
        data.towers.reverse();
        data.creeps.reverse();
    }));
    assert_eq!(ours, reordered);
}

#[test]
fn a_disagreement_is_spelled_out_part_by_part() {
    let ours = ProtocolVersion { schema: 4, balance_hash: 1, map_hash: 0xff };
    let theirs = ProtocolVersion { schema: 12, balance_hash: 2, map_hash: 0xabc };
    assert_eq!(
        ours.disagreement(&theirs).as_deref(),
        Some(
            "schema revision (server 4, client 12); \
             balance data (server 0000000000000001, client 0000000000000002); \
             map data (server 00000000000000ff, client 0000000000000abc)"
        )
    );
    let board = ProtocolVersion { map_hash: 0xabc, ..ours };
    assert_eq!(
        ours.disagreement(&board).as_deref(),
        Some("map data (server 00000000000000ff, client 0000000000000abc)")
    );
    assert_eq!(theirs.disagreement(&ours).is_none(), ours.disagreement(&theirs).is_none());
}
