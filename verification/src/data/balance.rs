//! Balance data: every tuned number, loaded by both peers.
//!
//! The tables are data so that a re-tune needs no recompile, and both peers have
//! to be able to *prove* that they use the same numbers: a dumb client renders
//! tooltips straight from these tables, so a mismatch means the interface lies.
//! See [`canonical`] for the form that is hashed, and [`validation`] for what
//! makes a set of tables trustworthy.

use crate::message::{Message, PieceView};
use crate::order::{at_most, lemma_one, less, one};
use crate::scalar::{
    from_whole, lemma_from_zero, lemma_plus_zero, lemma_times_one, lemma_times_zero, lemma_whole_is_exact, lemma_whole_part, magnitude, product,
    sum, whole_part, Scalar,
};
use crate::text::{lemma_position, lemma_position_is, position, same_text};
use vstd::arithmetic::power2::lemma_pow2_pos;
use vstd::prelude::*;

pub mod canonical;
pub mod curves;
pub mod validation;

verus! {

/// Directory searched when the environment names none.
pub const DEFAULT_BALANCE_DIR: &'static str = "assets/balance";

/// Environment variable naming the balance directory.
pub const BALANCE_DIR_ENV: &'static str = "GREENTD_BALANCE_DIR";

// ---------------------------------------------------------------------------
// Errors
// ---------------------------------------------------------------------------

/// A balance table could not be read, parsed or trusted.
#[derive(Clone, PartialEq, Eq, Debug)]
#[allow(inconsistent_fields)]
pub enum BalanceError {
    /// The file could not be read.
    Io { path: String, message: String },
    /// The file is not a table of its type.
    Parse { path: String, message: String },
    /// The file parsed but a cross-reference or a range check failed.
    Invalid { field: String, message: Message },
}

/// What is wrong with a set of tables: the field it is about, and the reason.
pub ghost struct Fault {
    pub field: Seq<char>,
    pub message: Seq<PieceView>,
}

impl BalanceError {
    /// The fault that the error reports, if it reports one.
    pub open spec fn fault(self) -> Option<Fault> {
        match self {
            BalanceError::Invalid { field, message } => Some(Fault { field: field@, message: message@ }),
            _ => None,
        }
    }

    /// A refusal that names the field it is about.
    pub(crate) fn invalid(field: String, message: Message) -> (err: BalanceError)
        ensures
            err.fault() == Some(Fault { field: field@, message: message@ }),
    {
        BalanceError::Invalid { field, message }
    }

    /// The error as a person reads it.
    pub fn text(&self) -> (text: Message)
        ensures
            text@ == (match *self {
                BalanceError::Io { path, message } => seq![PieceView::Words(path@ + ": "@ + message@)],
                BalanceError::Parse { path, message } => seq![PieceView::Words(path@ + ": "@ + message@)],
                BalanceError::Invalid { field, message } => seq![PieceView::Words("balance: "@ + field@ + ": "@)]
                    + message@,
            }),
    {
        match self {
            BalanceError::Io { path, message } => {
                let mut words = path.clone();
                words.append(": ");
                words.append(message.as_str());
                Message::new(words.as_str())
            },
            BalanceError::Parse { path, message } => {
                let mut words = path.clone();
                words.append(": ");
                words.append(message.as_str());
                Message::new(words.as_str())
            },
            BalanceError::Invalid { field, message } => {
                let mut words = "balance: ".to_owned();
                words.append(field.as_str());
                words.append(": ");
                Message::new(words.as_str()).followed_by(message)
            },
        }
    }
}

// ---------------------------------------------------------------------------
// Tables
// ---------------------------------------------------------------------------

/// How a match is lost.
///
/// | Rule | Ends when |
/// |------|-----------|
/// | [`LoseRule::Lives`] | A creep reaches the goal often enough to use the last life |
/// | [`LoseRule::Overrun`] | More creeps are alive at once than the cap allows |
#[derive(Clone, Copy, PartialEq, Eq, Debug, Structural)]
pub enum LoseRule {
    /// Leak enough creeps into the goal and the match is lost.
    Lives,
    /// Let too many creeps accumulate at once and the match is lost.
    Overrun,
}

/// The name of a rule.
pub open spec fn rule_name(rule: LoseRule) -> Seq<char> {
    match rule {
        LoseRule::Lives => "lives"@,
        LoseRule::Overrun => "overrun"@,
    }
}

impl Default for LoseRule {
    fn default() -> (rule: LoseRule)
        ensures
            rule == LoseRule::Lives,
    {
        LoseRule::Lives
    }
}

impl LoseRule {
    /// The name of the rule.
    pub fn text(self) -> (text: &'static str)
        ensures
            text@ == rule_name(self),
    {
        match self {
            LoseRule::Lives => "lives",
            LoseRule::Overrun => "overrun",
        }
    }
}

/// Numbers that describe the match itself rather than its content.
#[derive(Clone, Copy, PartialEq, Eq, Debug, Structural)]
pub struct MatchRules {
    /// Gold every player starts with.
    pub start_gold: u32,
    /// More live creeps than this ends the match, under [`LoseRule::Overrun`].
    pub overrun_cap: u32,
    /// How the match is lost.
    pub lose_rule: LoseRule,
    /// Lives a match starts with. One creep reaching the goal costs one of
    /// them, and the match ends at zero, under [`LoseRule::Lives`].
    pub starting_lives: u32,
    /// Seconds between waves.
    pub wave_interval: Scalar,
    /// Delay before wave 1, so a lobby is not immediately under attack.
    pub first_wave_delay: Scalar,
    /// Minimum time between two wave calls from one player.
    pub call_wave_cooldown: Scalar,
    /// Percentage of a tower's total spend returned when it is sold.
    pub sell_refund_percent: u32,
    /// The match's seed. The same seed and the same intents produce the same
    /// game.
    pub seed: u64,
}

/// One tower family, addressed on the wire by its **index** in the table.
#[derive(Clone, PartialEq, Eq, Debug)]
pub struct TowerDef {
    pub key: String,
    pub name: String,
    pub cost: u32,
    /// Range in world units.
    pub range: Scalar,
    pub damage: Scalar,
    /// Seconds between shots, before tier scaling.
    pub cooldown: Scalar,
    /// Splash radius in world units; zero means single-target.
    pub splash: Scalar,
    /// Speed multiplier applied to hit creeps; one means no slow.
    pub slow: Scalar,
    /// Damage *and* rate multiplier added per level above 1.
    pub damage_per_level: Scalar,
    /// Range multiplier added per level above 1.
    pub range_per_level: Scalar,
    /// Seconds a creep stays slowed after this tower hits it.
    pub slow_duration: Scalar,
    /// Cost of the first upgrade.
    pub upgrade_base_cost: u32,
    /// Fractional cost growth per further level.
    pub upgrade_growth: Scalar,
    /// The tower this one upgrades into, if the family branches.
    pub next: Option<String>,
}

/// A tower family, as a value.
pub ghost struct TowerView {
    pub key: Seq<char>,
    pub name: Seq<char>,
    pub cost: u32,
    pub range: Scalar,
    pub damage: Scalar,
    pub cooldown: Scalar,
    pub splash: Scalar,
    pub slow: Scalar,
    pub damage_per_level: Scalar,
    pub range_per_level: Scalar,
    pub slow_duration: Scalar,
    pub upgrade_base_cost: u32,
    pub upgrade_growth: Scalar,
    pub next: Option<Seq<char>>,
}

impl View for TowerDef {
    type V = TowerView;

    open spec fn view(&self) -> TowerView {
        TowerView {
            key: self.key@,
            name: self.name@,
            cost: self.cost,
            range: self.range,
            damage: self.damage,
            cooldown: self.cooldown,
            splash: self.splash,
            slow: self.slow,
            damage_per_level: self.damage_per_level,
            range_per_level: self.range_per_level,
            slow_duration: self.slow_duration,
            upgrade_base_cost: self.upgrade_base_cost,
            upgrade_growth: self.upgrade_growth,
            next: match self.next {
                Some(next) => Some(next@),
                None => None,
            },
        }
    }
}

/// One creep model.
#[derive(Clone, PartialEq, Eq, Debug)]
pub struct CreepDef {
    pub key: String,
    pub name: String,
    pub hp_mult: Scalar,
    pub speed_mult: Scalar,
    pub bounty_mult: Scalar,
}

/// A keyed set of multipliers, as a value: a creep model, or a difficulty.
pub ghost struct ScaleView {
    pub key: Seq<char>,
    pub name: Seq<char>,
    pub hp_mult: Scalar,
    pub speed_mult: Scalar,
    pub bounty_mult: Scalar,
}

impl View for CreepDef {
    type V = ScaleView;

    open spec fn view(&self) -> ScaleView {
        ScaleView {
            key: self.key@,
            name: self.name@,
            hp_mult: self.hp_mult,
            speed_mult: self.speed_mult,
            bounty_mult: self.bounty_mult,
        }
    }
}

/// The procedural part of the wave generator: the curves a wave number is fed
/// through.
#[derive(Clone, Copy, PartialEq, Eq, Debug, Structural)]
pub struct WaveScaling {
    /// Creep health of wave 1.
    pub hp_base: Scalar,
    /// Fractional health growth per wave.
    pub hp_growth: Scalar,
    /// Creep speed of wave 1.
    pub speed_base: Scalar,
    /// Speed added per wave.
    pub speed_growth: Scalar,
    /// Bounty of wave 1.
    pub bounty_base: Scalar,
    /// Bounty added per wave.
    pub bounty_per_wave: Scalar,
    /// Creep count of wave 1, per lane.
    pub count_base: Scalar,
    /// Creep count added per wave, per lane.
    pub count_per_wave: Scalar,
    /// How far from the exact centre of its slot a creep may spawn, as a
    /// fraction of the slot's width. Below one half.
    pub spawn_jitter: Scalar,
    /// How far apart, in world units, the creeps of one wave enter a lane.
    pub spawn_gap: Scalar,
    /// The longest column a wave may arrive in, in world units.
    pub spawn_arc: Scalar,
}

/// One creep line inside one wave.
#[derive(Clone, PartialEq, Eq, Debug)]
pub struct WaveCreep {
    /// A [`CreepDef`] key.
    pub model: String,
    pub count: u32,
}

/// A creep line, as a value.
pub ghost struct LineView {
    pub model: Seq<char>,
    pub count: u32,
}

impl View for WaveCreep {
    type V = LineView;

    open spec fn view(&self) -> LineView {
        LineView { model: self.model@, count: self.count }
    }
}

/// One wave of the finite table.
#[derive(Clone, PartialEq, Eq, Debug)]
pub struct WaveDef {
    /// 1-based wave number.
    pub index: u32,
    pub creeps: Vec<WaveCreep>,
}

/// A wave, as a value.
pub ghost struct WaveView {
    pub index: u32,
    pub creeps: Seq<LineView>,
}

impl View for WaveDef {
    type V = WaveView;

    open spec fn view(&self) -> WaveView {
        WaveView { index: self.index, creeps: self.creeps@.map_values(|c: WaveCreep| c@) }
    }
}

/// The waves: the curves, and the explicit waves where there are any.
#[derive(Clone, PartialEq, Eq, Debug)]
pub struct WaveTable {
    pub scaling: WaveScaling,
    /// Explicit waves. Empty means that every wave comes from `scaling`.
    pub waves: Vec<WaveDef>,
    /// Highest wave the finite table reaches, if it is finite.
    pub max_wave: Option<u32>,
}

/// One difficulty.
#[derive(Clone, PartialEq, Eq, Debug)]
pub struct DifficultyDef {
    pub key: String,
    pub name: String,
    pub hp_mult: Scalar,
    pub speed_mult: Scalar,
    pub bounty_mult: Scalar,
}

impl View for DifficultyDef {
    type V = ScaleView;

    open spec fn view(&self) -> ScaleView {
        ScaleView {
            key: self.key@,
            name: self.name@,
            hp_mult: self.hp_mult,
            speed_mult: self.speed_mult,
            bounty_mult: self.bounty_mult,
        }
    }
}

/// One game mode.
#[derive(Clone, PartialEq, Eq, Debug)]
pub struct GameModeDef {
    pub key: String,
    pub name: String,
    /// A short game is a prefix of the long one, not a different table.
    pub short_game: bool,
}

/// A game mode, as a value.
pub ghost struct ModeView {
    pub key: Seq<char>,
    pub name: Seq<char>,
    pub short_game: bool,
}

impl View for GameModeDef {
    type V = ModeView;

    open spec fn view(&self) -> ModeView {
        ModeView { key: self.key@, name: self.name@, short_game: self.short_game }
    }
}

/// Every table.
#[derive(Clone, PartialEq, Eq, Debug)]
pub struct BalanceData {
    pub match_rules: MatchRules,
    pub towers: Vec<TowerDef>,
    pub creeps: Vec<CreepDef>,
    pub waves: WaveTable,
    pub difficulties: Vec<DifficultyDef>,
    pub modes: Vec<GameModeDef>,
}

/// Every table, as a value.
#[verifier::ext_equal]
pub ghost struct BalanceView {
    pub match_rules: MatchRules,
    pub towers: Seq<TowerView>,
    pub creeps: Seq<ScaleView>,
    pub scaling: WaveScaling,
    pub waves: Seq<WaveView>,
    pub max_wave: Option<u32>,
    pub difficulties: Seq<ScaleView>,
    pub modes: Seq<ModeView>,
}

impl View for BalanceData {
    type V = BalanceView;

    open spec fn view(&self) -> BalanceView {
        BalanceView {
            match_rules: self.match_rules,
            towers: self.towers@.map_values(|t: TowerDef| t@),
            creeps: self.creeps@.map_values(|c: CreepDef| c@),
            scaling: self.waves.scaling,
            waves: self.waves.waves@.map_values(|w: WaveDef| w@),
            max_wave: self.waves.max_wave,
            difficulties: self.difficulties@.map_values(|d: DifficultyDef| d@),
            modes: self.modes@.map_values(|m: GameModeDef| m@),
        }
    }
}

// ---------------------------------------------------------------------------
// Curves
// ---------------------------------------------------------------------------

/// Waves after the first.
pub open spec fn later_waves(wave: u32) -> int {
    if wave == 0 {
        0
    } else {
        wave - 1
    }
}

/// Creeps that one wave sends per lane and per player, at least one.
pub open spec fn share(s: WaveScaling, wave: u32) -> int {
    let whole = whole_part(sum(s.count_base, product(s.count_per_wave, from_whole(later_waves(wave)))));
    if whole < 1 {
        1
    } else {
        whole
    }
}

/// Creeps that one wave sends per lane to a lobby; an empty lobby counts as one
/// player.
pub open spec fn lane_share(s: WaveScaling, wave: u32, players: u32) -> int {
    share(s, wave) * (if players == 0 { 1 } else { players as int })
}

/// Creep health of a wave.
pub open spec fn wave_hp(s: WaveScaling, wave: u32) -> Scalar {
    product(s.hp_base, sum(one(), product(s.hp_growth, from_whole(later_waves(wave)))))
}

/// Creep speed of a wave.
pub open spec fn wave_speed(s: WaveScaling, wave: u32) -> Scalar {
    sum(s.speed_base, product(s.speed_growth, from_whole(later_waves(wave))))
}

/// Bounty of one creep of a wave.
pub open spec fn wave_bounty(s: WaveScaling, wave: u32) -> int {
    whole_part(sum(s.bounty_base, product(s.bounty_per_wave, from_whole(later_waves(wave)))))
}

/// Levels above the first.
pub open spec fn tiers(level: u8) -> int {
    if level == 0 {
        0
    } else {
        level - 1
    }
}

/// Cost of taking a tower up one level.
pub open spec fn raise_cost(t: TowerView, level: u8) -> int {
    whole_part(
        product(from_whole(t.upgrade_base_cost as int), sum(one(), product(t.upgrade_growth, from_whole(tiers(level))))),
    )
}

/// An upgrade is paid in 32 bits.
pub proof fn lemma_raise_cost(t: TowerView, level: u8)
    ensures
        0 <= raise_cost(t, level) <= u32::MAX,
{
    lemma_whole_part(
        product(from_whole(t.upgrade_base_cost as int), sum(one(), product(t.upgrade_growth, from_whole(tiers(level))))),
    );
}

/// The total spend on a tower of a level: what it cost to build, and every
/// upgrade since.
pub open spec fn spent(t: TowerView, level: u8) -> int
    decreases level,
{
    if level <= 1 {
        t.cost as int
    } else {
        spent(t, (level - 1) as u8) + raise_cost(t, (level - 1) as u8)
    }
}

/// The share of the total spend on a tower that a sale returns.
pub open spec fn refund(rules: MatchRules, t: TowerView, level: u8) -> int {
    spent(t, level) * rules.sell_refund_percent / 100
}

/// Every upgrade is paid in 32 bits, so the total spend fits in 40.
pub proof fn lemma_spent(t: TowerView, level: u8)
    ensures
        t.cost <= spent(t, level) <= (level + 1) * 0xFFFF_FFFF,
    decreases level,
{
    if level > 1 {
        let before = (level - 1) as u8;
        lemma_spent(t, before);
        lemma_raise_cost(t, before);
    }
}

/// The keys of the towers.
pub open spec fn tower_keys(towers: Seq<TowerView>) -> Seq<Seq<char>> {
    towers.map_values(|t: TowerView| t.key)
}

/// The keys of the creep models, or of the difficulties.
pub open spec fn scale_keys(scales: Seq<ScaleView>) -> Seq<Seq<char>> {
    scales.map_values(|c: ScaleView| c.key)
}

/// The keys of the game modes.
pub open spec fn mode_keys(modes: Seq<ModeView>) -> Seq<Seq<char>> {
    modes.map_values(|m: ModeView| m.key)
}

impl BalanceData {
    /// The tower a wire-level `kind` refers to.
    pub fn tower(&self, kind: u8) -> (r: Option<&TowerDef>)
        ensures
            r == (if kind < self.towers@.len() {
                Some(&self.towers@[kind as int])
            } else {
                None
            }),
    {
        if (kind as usize) < self.towers.len() {
            Some(&self.towers[kind as usize])
        } else {
            None
        }
    }

    /// The tower with a key.
    pub fn tower_by_key(&self, key: &str) -> (r: Option<&TowerDef>)
        ensures
            r == (match position(tower_keys(self@.towers), key@) {
                Some(i) => Some(&self.towers@[i]),
                None => None,
            }),
    {
        match self.tower_position(key) {
            Some(i) => Some(&self.towers[i]),
            None => None,
        }
    }

    /// The index of the first tower with a key.
    pub(crate) fn tower_position(&self, key: &str) -> (r: Option<usize>)
        ensures
            match r {
                Some(i) => i < self.towers@.len() && position(tower_keys(self@.towers), key@) == Some(i as int),
                None => position(tower_keys(self@.towers), key@) is None,
            },
    {
        let ghost keys = tower_keys(self@.towers);
        let mut i: usize = 0;
        while i < self.towers.len()
            invariant
                i <= self.towers@.len(),
                keys == tower_keys(self@.towers),
                forall|j: int| 0 <= j < i ==> keys[j] != key@,
            decreases self.towers@.len() - i,
        {
            assert(keys[i as int] == self.towers@[i as int].key@);
            if same_text(self.towers[i].key.as_str(), key) {
                proof {
                    lemma_position_is(keys, key@, i as int);
                }
                return Some(i);
            }
            i = i + 1;
        }
        proof {
            lemma_position(keys, key@);
        }
        None
    }

    /// The creep model with a key.
    pub fn creep_by_key(&self, key: &str) -> (r: Option<&CreepDef>)
        ensures
            r == (match position(scale_keys(self@.creeps), key@) {
                Some(i) => Some(&self.creeps@[i]),
                None => None,
            }),
    {
        let ghost keys = scale_keys(self@.creeps);
        let mut i: usize = 0;
        while i < self.creeps.len()
            invariant
                i <= self.creeps@.len(),
                keys == scale_keys(self@.creeps),
                forall|j: int| 0 <= j < i ==> keys[j] != key@,
            decreases self.creeps@.len() - i,
        {
            assert(keys[i as int] == self.creeps@[i as int].key@);
            if same_text(self.creeps[i].key.as_str(), key) {
                proof {
                    lemma_position_is(keys, key@, i as int);
                }
                return Some(&self.creeps[i]);
            }
            i = i + 1;
        }
        proof {
            lemma_position(keys, key@);
        }
        None
    }

    /// Number of distinct tower kinds, i.e. the exclusive upper bound of a
    /// wire-level `kind`.
    pub fn tower_kind_count(&self) -> (n: u8)
        ensures
            n == (if self.towers@.len() < 255 {
                self.towers@.len() as int
            } else {
                255
            }),
    {
        if self.towers.len() < 255 {
            self.towers.len() as u8
        } else {
            255
        }
    }

    fn share(&self, wave: u32) -> (n: u32)
        ensures
            n == share(self.waves.scaling, wave),
            n >= 1,
    {
        let s = &self.waves.scaling;
        let later: u32 = if wave == 0 { 0 } else { wave - 1 };
        let whole: u32 = s.count_base.plus(s.count_per_wave.times(Scalar::from_u32(later))).to_u32();
        if whole < 1 {
            1
        } else {
            whole
        }
    }

    /// Creep count for one wave, for a lobby of `players` connected players.
    pub fn creeps_per_wave(&self, wave: u32, players: u32) -> (n: u32)
        requires
            lane_share(self.waves.scaling, wave, players) <= u32::MAX,
        ensures
            n == lane_share(self.waves.scaling, wave, players),
    {
        let each: u32 = self.share(wave);
        let lobby: u32 = if players == 0 { 1 } else { players };
        each * lobby
    }

    /// Creeps one lane sends in one wave.
    ///
    /// A wave is spawned on *every* lane the map has, so this is a per-lane
    /// figure, and a wave's total is this times the lane count.
    pub fn creeps_per_lane(&self, wave: u32, players: u32) -> (n: u32)
        requires
            lane_share(self.waves.scaling, wave, players) <= u32::MAX,
        ensures
            n == lane_share(self.waves.scaling, wave, players),
    {
        self.creeps_per_wave(wave, players)
    }

    /// Creeps one lane sends in one wave, or nothing where that many cannot be
    /// counted.
    pub fn checked_creeps_per_lane(&self, wave: u32, players: u32) -> (n: Option<u32>)
        ensures
            n == (if lane_share(self.waves.scaling, wave, players) <= u32::MAX {
                Some(lane_share(self.waves.scaling, wave, players) as u32)
            } else {
                None
            }),
    {
        let each: u32 = self.share(wave);
        let lobby: u32 = if players == 0 { 1 } else { players };
        each.checked_mul(lobby)
    }

    /// Creep health for one wave, before difficulty scaling.
    pub fn creep_hp(&self, wave: u32) -> (hp: Scalar)
        ensures
            hp == wave_hp(self.waves.scaling, wave),
    {
        let s = &self.waves.scaling;
        let later: u32 = if wave == 0 { 0 } else { wave - 1 };
        s.hp_base.times(one().plus(s.hp_growth.times(Scalar::from_u32(later))))
    }

    /// Creep speed for one wave, before difficulty scaling.
    pub fn creep_speed(&self, wave: u32) -> (speed: Scalar)
        ensures
            speed == wave_speed(self.waves.scaling, wave),
    {
        let s = &self.waves.scaling;
        let later: u32 = if wave == 0 { 0 } else { wave - 1 };
        s.speed_base.plus(s.speed_growth.times(Scalar::from_u32(later)))
    }

    /// Bounty for one wave creep, before difficulty scaling.
    pub fn creep_bounty(&self, wave: u32) -> (bounty: u32)
        ensures
            bounty == wave_bounty(self.waves.scaling, wave),
    {
        let s = &self.waves.scaling;
        let later: u32 = if wave == 0 { 0 } else { wave - 1 };
        s.bounty_base.plus(s.bounty_per_wave.times(Scalar::from_u32(later))).to_u32()
    }

    /// Cost of taking `tower` from `level` to `level + 1`.
    pub fn upgrade_cost(&self, tower: &TowerDef, level: u8) -> (cost: u32)
        ensures
            cost == raise_cost(tower@, level),
    {
        let steps: u32 = if level == 0 { 0 } else { (level - 1) as u32 };
        Scalar::from_u32(tower.upgrade_base_cost).times(
            one().plus(tower.upgrade_growth.times(Scalar::from_u32(steps))),
        ).to_u32()
    }

    /// The total spend on a tower of a level: what it cost to build, and every
    /// upgrade since.
    pub(crate) fn total_spend(&self, tower: &TowerDef, level: u8) -> (gold: u64)
        ensures
            gold == spent(tower@, level),
    {
        let mut gold: u64 = tower.cost as u64;
        let mut at: u8 = 1;
        while at < level
            invariant
                1 <= at,
                at <= level || at == 1,
                gold == spent(tower@, at),
            decreases level - at,
        {
            proof {
                lemma_spent(tower@, at);
            }
            gold = gold + self.upgrade_cost(tower, at) as u64;
            at = at + 1;
        }
        gold
    }

    /// Gold returned when a tower is sold: the table's percentage of what it
    /// cost to get here. Integer arithmetic, so the refund is exact and both
    /// peers agree on it. A refund past `u32::MAX` keeps its low 32 bits.
    pub fn sell_refund(&self, tower: &TowerDef, level: u8) -> (gold: u32)
        requires
            spent(tower@, level) * self.match_rules.sell_refund_percent <= u64::MAX,
        ensures
            gold == refund(self.match_rules, tower@, level) % 0x1_0000_0000,
    {
        let total: u64 = self.total_spend(tower, level);
        let percent: u64 = self.match_rules.sell_refund_percent as u64;
        assert(total * percent >= 0) by (nonlinear_arith)
            requires
                total >= 0,
                percent >= 0,
        ;
        let whole: u64 = total * percent / 100;
        assert(whole as u32 == whole % 0x1_0000_0000) by (bit_vector);
        #[verifier::truncate]
        let gold: u32 = whole as u32;
        gold
    }
}

// ---------------------------------------------------------------------------
// Guards
// ---------------------------------------------------------------------------

/// `value > bound`, with "not a number" on the *false* side.
pub(crate) fn above(value: Scalar, bound: Scalar) -> (yes: bool)
    ensures
        yes == less(bound, value),
{
    value.gt(bound)
}

/// `value >= bound`, with "not a number" on the *false* side.
pub(crate) fn at_least(value: Scalar, bound: Scalar) -> (yes: bool)
    ensures
        yes == at_most(bound, value),
{
    value.ge(bound)
}

// ---------------------------------------------------------------------------
// Laws
// ---------------------------------------------------------------------------

/// Wave one has the base health, the base speed, the base bounty and the base
/// count, which is at least one.
pub proof fn law_wave_one_is_the_base(s: WaveScaling)
    requires
        s.hp_base.finite(),
        s.hp_growth.finite(),
        s.speed_base.finite(),
        s.speed_growth.finite(),
        s.bounty_base.finite(),
        s.bounty_per_wave.finite(),
        s.count_base.finite(),
        s.count_per_wave.finite(),
    ensures
        wave_hp(s, 1).finite() && wave_hp(s, 1).position() == s.hp_base.position(),
        wave_speed(s, 1).finite() && wave_speed(s, 1).position() == s.speed_base.position(),
        wave_bounty(s, 1) == whole_part(s.bounty_base),
        share(s, 1) == (if whole_part(s.count_base) < 1 {
            1
        } else {
            whole_part(s.count_base)
        }),
{
    lemma_whole_is_exact(0);
    lemma_from_zero();
    lemma_times_zero(from_whole(0), s.hp_growth);
    lemma_times_zero(from_whole(0), s.speed_growth);
    lemma_plus_zero(one(), product(s.hp_growth, from_whole(0)));
    lemma_plus_zero(s.speed_base, product(s.speed_growth, from_whole(0)));
    assert(sum(one(), product(s.hp_growth, from_whole(0))) == one());
    lemma_one();
    lemma_times_one(s.hp_base);
    lemma_base_and_nothing(s.bounty_base, s.bounty_per_wave);
    lemma_base_and_nothing(s.count_base, s.count_per_wave);
}

proof fn lemma_base_and_nothing(base: Scalar, per_wave: Scalar)
    requires
        base.finite(),
        per_wave.finite(),
    ensures
        whole_part(sum(base, product(per_wave, from_whole(0)))) == whole_part(base),
{
    reveal(whole_part);
    lemma_from_zero();
    lemma_times_zero(from_whole(0), per_wave);
    let total = sum(base, product(per_wave, from_whole(0)));
    lemma_plus_zero(base, product(per_wave, from_whole(0)));
    lemma_pow2_pos(149);
    assert(magnitude(0) == 0);
    if base.rank() > 0 {
        assert(total == base);
    } else {
        assert(total.rank() == 0);
    }
}

/// A bigger lobby is attacked proportionally harder.
pub proof fn law_a_bigger_lobby_is_attacked_harder(s: WaveScaling, wave: u32, players: u32)
    requires
        players >= 1,
    ensures
        lane_share(s, wave, players) == lane_share(s, wave, 1) * players,
        lane_share(s, wave, players) >= players,
        lane_share(s, wave, 0) == lane_share(s, wave, 1),
{
    let each = share(s, wave);
    assert(each * 1 == each) by (nonlinear_arith);
    assert(each * players >= players) by (nonlinear_arith)
        requires
            each >= 1,
            players >= 1,
    ;
}

/// A sale never returns more than what was spent on the tower.
pub proof fn law_a_sale_never_gains(rules: MatchRules, t: TowerView, level: u8)
    requires
        rules.sell_refund_percent <= 100,
    ensures
        0 <= refund(rules, t, level) <= spent(t, level),
{
    lemma_spent(t, level);
    let total = spent(t, level);
    let percent = rules.sell_refund_percent as int;
    assert(0 <= total * percent <= total * 100) by (nonlinear_arith)
        requires
            0 <= total,
            0 <= percent <= 100,
    ;
}

} // verus!
