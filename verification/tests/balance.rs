//! The balance tables: cross-reference validation, the curves and the canonical
//! form.

use greentd::data::balance::canonical::fnv1a_64;
use greentd::data::balance::{
    BalanceData, BalanceError, CreepDef, DifficultyDef, GameModeDef, LoseRule, MatchRules, TowerDef, WaveCreep, WaveDef,
    WaveScaling, WaveTable,
};
use greentd::message::{Message, Piece};
use greentd::scalar::Scalar;

fn s(x: f32) -> Scalar {
    Scalar { bits: x.to_bits() }
}

fn f(x: Scalar) -> f32 {
    f32::from_bits(x.bits)
}

/// A tower family that is sold for these numbers.
fn tower(key: &str, cost: u32, range: f32, damage: f32, cooldown: f32) -> TowerDef {
    TowerDef {
        key: key.to_string(),
        name: key.to_uppercase(),
        cost,
        range: s(range),
        damage: s(damage),
        cooldown: s(cooldown),
        splash: s(0.0),
        slow: s(1.0),
        damage_per_level: s(0.45),
        range_per_level: s(0.04),
        slow_duration: s(0.0),
        upgrade_base_cost: cost,
        upgrade_growth: s(0.5),
        next: None,
    }
}

/// A full set of tables.
fn tables() -> BalanceData {
    let mut cannon = tower("cannon", 60, 420.0, 30.0, 1.5);
    cannon.splash = s(120.0);
    let mut frost = tower("frost", 40, 380.0, 4.0, 1.0);
    frost.slow = s(0.6);
    frost.slow_duration = s(1.5);
    let creep = |key: &str| CreepDef {
        key: key.to_string(),
        name: key.to_uppercase(),
        hp_mult: s(1.0),
        speed_mult: s(1.0),
        bounty_mult: s(1.0),
    };
    BalanceData {
        match_rules: MatchRules {
            start_gold: 200,
            overrun_cap: 100,
            lose_rule: LoseRule::Lives,
            starting_lives: 60,
            wave_interval: s(20.0),
            first_wave_delay: s(5.0),
            call_wave_cooldown: s(8.0),
            sell_refund_percent: 75,
            seed: 0x5eed,
        },
        towers: vec![tower("basic", 20, 350.0, 10.0, 0.5), cannon, frost],
        creeps: vec![creep("grunt"), creep("runner")],
        waves: WaveTable {
            scaling: WaveScaling {
                hp_base: s(30.0),
                hp_growth: s(0.2),
                speed_base: s(120.0),
                speed_growth: s(2.0),
                bounty_base: s(2.0),
                bounty_per_wave: s(0.25),
                count_base: s(1.0),
                count_per_wave: s(0.5),
                spawn_jitter: s(0.45),
                spawn_gap: s(80.0),
                spawn_arc: s(1600.0),
            },
            waves: vec![],
            max_wave: None,
        },
        difficulties: vec![DifficultyDef {
            key: "normal".to_string(),
            name: "Normal".to_string(),
            hp_mult: s(1.0),
            speed_mult: s(1.0),
            bounty_mult: s(1.0),
        }],
        modes: vec![GameModeDef {
            key: "long".to_string(),
            name: "Long".to_string(),
            short_game: false,
        }],
    }
}

/// The hash of a set of tables: of its canonical form, printed.
fn hash(data: &BalanceData) -> u64 {
    let mut canonical = data.clone();
    canonical.normalise();
    fnv1a_64(format!("{canonical:?}").as_bytes())
}

/// A message, with its numbers printed.
fn printed(message: &Message) -> String {
    let mut text = String::new();
    for piece in &message.pieces {
        match piece {
            Piece::Words(words) => text.push_str(words),
            Piece::Number(number) => text.push_str(&f32::from_bits(number.bits).to_string()),
            Piece::Literal(number) => text.push_str(&format!("{:?}", f32::from_bits(number.bits))),
            Piece::Whole(number) => text.push_str(&format!("{:.0}", f32::from_bits(number.bits))),
        }
    }
    text
}

fn text(err: &BalanceError) -> String {
    printed(&err.text())
}

#[test]
fn the_hash_ignores_entry_order_but_not_values() {
    let mut reordered = tables();
    let baseline = hash(&reordered);

    reordered.towers.reverse();
    reordered.creeps.reverse();
    assert_eq!(
        hash(&reordered),
        baseline,
        "moving entries around must not change the hash"
    );

    reordered.towers[0].cost += 1;
    assert_ne!(
        hash(&reordered),
        baseline,
        "changing a number must change the hash"
    );
}

#[test]
fn an_unknown_creep_model_names_the_field_path() {
    let mut data = tables();
    data.waves.waves = vec![WaveDef {
        index: 1,
        creeps: vec![WaveCreep {
            model: "not-a-creep".to_string(),
            count: 6,
        }],
    }];

    let err = data
        .validate()
        .expect_err("an unknown model is a hard error");
    let text = text(&err);
    assert!(
        text.contains("waves[0].creeps[0].model"),
        "the message must name the field path, got: {text}"
    );
}

#[test]
fn a_tier_chain_must_resolve_be_acyclic_and_get_stronger() {
    let mut data = tables();

    // A self-cycle.
    data.towers[0].next = Some("basic".to_string());
    let cycle = data.validate().expect_err("a cycle is a hard error");
    assert!(text(&cycle).contains("towers[0].next"), "{cycle:?}");

    // A chain that resolves and strengthens is fine.
    data.towers[0].next = Some("cannon".to_string());
    data.validate().expect("basic -> cannon is monotonic");

    // ... but a cheaper successor is not.
    data.towers[1].next = Some("frost".to_string());
    let weaker = data
        .validate()
        .expect_err("a cheaper successor is a hard error");
    assert!(text(&weaker).contains("towers[1].next"), "{weaker:?}");

    // An unresolvable link is not either.
    data.towers[1].next = Some("ghost".to_string());
    let unknown = data
        .validate()
        .expect_err("an unknown tower is a hard error");
    assert!(text(&unknown).contains("towers[1].next"), "{unknown:?}");
}

#[test]
fn the_curves_reproduce_wave_one() {
    let data = tables();
    let scaling = &data.waves.scaling;

    assert_eq!(data.creep_hp(1), scaling.hp_base);
    assert_eq!(data.creep_speed(1), scaling.speed_base);
    assert_eq!(data.creep_bounty(1), f(scaling.bounty_base) as u32);
    assert_eq!(data.creeps_per_wave(1, 1), f(scaling.count_base) as u32);
    assert_eq!(
        data.creeps_per_wave(3, 2),
        data.creeps_per_wave(3, 1) * 2,
        "a bigger lobby spawns proportionally more creeps"
    );
}

#[test]
fn wave_one_is_the_base_however_steep_the_curves_are() {
    let mut data = tables();
    data.waves.scaling.count_base = s(4.0);
    data.waves.scaling.count_per_wave = s(1.0);
    data.waves.scaling.bounty_base = s(3.0);
    data.waves.scaling.bounty_per_wave = s(2.0);
    assert_eq!(data.creeps_per_lane(1, 1), 4);
    assert_eq!(data.creeps_per_lane(2, 1), 5);
    assert_eq!(data.creeps_per_lane(2, 0), 5, "an empty lobby counts as one player");
    assert_eq!(data.creep_bounty(1), 3);
    assert_eq!(data.creep_bounty(4), 9);
    assert_eq!(f(data.creep_hp(3)), 30.0 * (1.0 + 0.2 * 2.0));
    assert_eq!(f(data.creep_speed(3)), 120.0 + 2.0 * 2.0);
}

#[test]
fn a_wave_that_cannot_be_counted_is_not_counted() {
    let mut data = tables();
    data.waves.scaling.count_base = s(4.0e9);
    assert_eq!(data.checked_creeps_per_lane(1, 1), Some(4_000_000_000));
    assert_eq!(data.checked_creeps_per_lane(1, 2), None);
    data.waves.scaling.count_base = s(-5.0);
    assert_eq!(data.checked_creeps_per_lane(1, 3), Some(3), "a wave has at least one creep");
}

#[test]
fn upgrades_and_refunds_are_the_tables_to_the_coin() {
    let data = tables();
    let basic = &data.towers[0];
    assert_eq!(data.upgrade_cost(basic, 1), 20);
    assert_eq!(data.upgrade_cost(basic, 2), 30);
    assert_eq!(data.upgrade_cost(basic, 4), 50);
    assert_eq!(data.sell_refund(basic, 1), 15);
    assert_eq!(data.sell_refund(basic, 3), 52, "75 percent of 70, rounded down");
    assert_eq!(data.sell_refund(&data.towers[1], 1), 45);

    // The total spend counts: 100 to build and 50 for the one upgrade.
    let mut data = tables();
    data.match_rules.sell_refund_percent = 70;
    let flat = TowerDef {
        cost: 100,
        upgrade_base_cost: 50,
        upgrade_growth: s(0.0),
        ..data.towers[0].clone()
    };
    assert_eq!(data.sell_refund(&flat, 1), 70);
    assert_eq!(data.sell_refund(&flat, 2), 105);
}

#[test]
fn towers_and_creeps_are_found_by_index_and_by_key() {
    let data = tables();
    assert_eq!(data.tower(1).map(|t| t.key.as_str()), Some("cannon"));
    assert!(data.tower(3).is_none());
    assert_eq!(data.tower_by_key("frost").map(|t| t.cost), Some(40));
    assert!(data.tower_by_key("ghost").is_none());
    assert_eq!(data.creep_by_key("runner").map(|c| c.name.as_str()), Some("RUNNER"));
    assert!(data.creep_by_key("ghost").is_none());
    assert_eq!(data.tower_kind_count() as usize, data.towers.len());
}

#[test]
fn sound_tables_are_accepted() {
    assert!(tables().validate().is_ok());
}

/// The field a change to sound tables is refused for.
fn refused(change: impl FnOnce(&mut BalanceData)) -> String {
    let mut data = tables();
    change(&mut data);
    match data.validate() {
        Err(BalanceError::Invalid { field, .. }) => field,
        other => panic!("not refused: {other:?}"),
    }
}

#[test]
fn every_fault_names_its_field() {
    let nan = s(f32::NAN);
    assert_eq!(refused(|d| d.towers.clear()), "towers");
    assert_eq!(refused(|d| d.creeps.clear()), "creeps");
    assert_eq!(refused(|d| d.difficulties.clear()), "difficulties");
    assert_eq!(refused(|d| d.modes.clear()), "modes");
    assert_eq!(refused(|d| d.towers[1].key = String::new()), "towers[1].key");
    assert_eq!(refused(|d| d.creeps[1].key = "grunt".to_string()), "creeps[1].key");
    assert_eq!(refused(|d| d.towers[0].cost = 0), "towers[0].cost");
    assert_eq!(refused(|d| d.towers[0].range = s(0.0)), "towers[0].range");
    assert_eq!(refused(|d| d.towers[0].damage = s(-1.0)), "towers[0].damage");
    assert_eq!(refused(|d| d.towers[0].cooldown = nan), "towers[0].cooldown");
    assert_eq!(refused(|d| d.towers[0].slow = s(1.5)), "towers[0].slow");
    assert_eq!(refused(|d| d.towers[0].damage_per_level = nan), "towers[0].damage_per_level");
    assert_eq!(refused(|d| d.towers[0].range_per_level = s(-0.1)), "towers[0].range_per_level");
    assert_eq!(refused(|d| d.towers[0].slow_duration = s(-0.1)), "towers[0].slow_duration");
    assert_eq!(refused(|d| d.towers[0].upgrade_growth = s(-0.1)), "towers[0].upgrade_growth");
    assert_eq!(refused(|d| d.creeps[0].hp_mult = s(0.0)), "creeps[0].hp_mult");
    assert_eq!(refused(|d| d.waves.scaling.hp_base = s(0.0)), "waves.scaling.hp_base");
    assert_eq!(refused(|d| d.waves.scaling.spawn_jitter = s(0.5)), "waves.scaling.spawn_jitter");
    assert_eq!(refused(|d| d.waves.scaling.spawn_gap = s(2000.0)), "waves.scaling.spawn_gap");
    assert_eq!(refused(|d| d.match_rules.overrun_cap = 0), "match_rules.overrun_cap");
    assert_eq!(refused(|d| d.match_rules.starting_lives = 0), "match_rules.starting_lives");
    assert_eq!(refused(|d| d.match_rules.wave_interval = nan), "match_rules.wave_interval");
    assert_eq!(refused(|d| d.match_rules.sell_refund_percent = 101), "match_rules.sell_refund_percent");
    let wave = |index: u32, count: u32| WaveDef {
        index,
        creeps: vec![WaveCreep { model: "grunt".to_string(), count }],
    };
    assert_eq!(refused(|d| d.waves.waves = vec![wave(0, 1)]), "waves[0].index");
    assert_eq!(refused(|d| d.waves.waves = vec![wave(1, 0)]), "waves[0].creeps[0].count");
    assert_eq!(
        refused(|d| {
            d.waves.waves = vec![wave(5, 1)];
            d.waves.max_wave = Some(4);
        }),
        "waves[0].index"
    );
}

#[test]
fn a_refusal_quotes_the_key_it_is_about() {
    let mut data = tables();
    data.towers[0].next = Some("gh\"ost".to_string());
    let err = data.validate().expect_err("an unknown tower");
    assert_eq!(text(&err), "balance: towers[0].next: unknown tower \"gh\\\"ost\"");
    let io = BalanceError::Io { path: "match.ron".to_string(), message: "gone".to_string() };
    assert_eq!(text(&io), "match.ron: gone");
    let parse = BalanceError::Parse { path: "match.ron".to_string(), message: "1:2".to_string() };
    assert_eq!(text(&parse), "match.ron: 1:2");
}

#[test]
fn the_hash_is_the_documented_one() {
    assert_eq!(fnv1a_64(b""), 0xcbf2_9ce4_8422_2325);
    assert_eq!(fnv1a_64(b"a"), 0xaf63_dc4c_8601_ec8c);
    assert_eq!(fnv1a_64(b"foobar"), 0x8594_4171_f739_67e8);
}

#[test]
fn the_canonical_form_has_no_seed_and_one_zero() {
    let mut one = tables();
    let mut two = tables();
    one.match_rules.seed = 1;
    two.match_rules.seed = 2;
    assert_eq!(hash(&one), hash(&two), "the seed is not part of the ruleset");
    one.towers[0].splash = s(0.0);
    two.towers[0].splash = s(-0.0);
    assert_eq!(hash(&one), hash(&two), "one zero is as good as the other");
}

#[test]
fn a_rule_is_called_by_its_name() {
    assert_eq!(LoseRule::default(), LoseRule::Lives);
    assert_eq!(LoseRule::Lives.text(), "lives");
    assert_eq!(LoseRule::Overrun.text(), "overrun");
}

#[test]
fn every_number_shows_in_the_canonical_form() {
    let plain = hash(&tables());
    let changes: [fn(&mut BalanceData); 8] = [
        |data| data.match_rules.start_gold += 1,
        |data| data.match_rules.call_wave_cooldown = s(9.5),
        |data| data.towers[2].slow = s(0.61),
        |data| data.towers[0].name = "Other".to_string(),
        |data| data.creeps[1].bounty_mult = s(2.0),
        |data| data.difficulties[0].hp_mult = s(1.5),
        |data| data.waves.scaling.spawn_arc = s(1601.0),
        |data| data.modes[0].short_game = true,
    ];
    for change in changes {
        let mut data = tables();
        change(&mut data);
        assert_ne!(hash(&data), plain);
    }
}
