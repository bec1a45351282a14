//! The form of the tables that two peers compare.
//!
//! Two peers that agree on the hash of their canonical tables agree on every
//! number a client is allowed to display. The canonical form does not depend on
//! the order entries appear in the files, nor on the sign of a zero, nor on the
//! match seed: peers have to agree on the rules, and which match they are
//! playing is a separate question.

use crate::data::balance::{
    BalanceData, BalanceView, CreepDef, DifficultyDef, GameModeDef, LineView, MatchRules, ModeView, ScaleView, TowerDef,
    TowerView, WaveCreep, WaveDef, WaveScaling, WaveView,
};
use crate::order::{equal, zero};
use crate::scalar::Scalar;
use crate::sim::rng::{lemma_odd_factor, lemma_undo, wrapped};
use crate::sorting::{
    codes, distinct, lemma_sorted, lemma_sorted_mapped, lemma_sorting_forgets_order, precedes, sort, sorted, text_before, Ranked,
};
use vstd::prelude::*;

verus! {

// ---------------------------------------------------------------------------
// Numbers
// ---------------------------------------------------------------------------

/// The number, with the sign of a zero dropped: the two zeros are equal but do
/// not print alike.
pub open spec fn pinned(x: Scalar) -> Scalar {
    if equal(x, zero()) {
        zero()
    } else {
        x
    }
}

fn pin(x: Scalar) -> (r: Scalar)
    ensures
        r == pinned(x),
{
    if x.same(zero()) {
        zero()
    } else {
        x
    }
}

/// A tower with its numbers pinned.
pub open spec fn pinned_tower(t: TowerView) -> TowerView {
    TowerView {
        range: pinned(t.range),
        damage: pinned(t.damage),
        cooldown: pinned(t.cooldown),
        splash: pinned(t.splash),
        slow: pinned(t.slow),
        damage_per_level: pinned(t.damage_per_level),
        range_per_level: pinned(t.range_per_level),
        slow_duration: pinned(t.slow_duration),
        upgrade_growth: pinned(t.upgrade_growth),
        ..t
    }
}

/// A creep model, or a difficulty, with its numbers pinned.
pub open spec fn pinned_scale(c: ScaleView) -> ScaleView {
    ScaleView {
        hp_mult: pinned(c.hp_mult),
        speed_mult: pinned(c.speed_mult),
        bounty_mult: pinned(c.bounty_mult),
        ..c
    }
}

/// The curves with their numbers pinned.
pub open spec fn pinned_scaling(s: WaveScaling) -> WaveScaling {
    WaveScaling {
        hp_base: pinned(s.hp_base),
        hp_growth: pinned(s.hp_growth),
        speed_base: pinned(s.speed_base),
        speed_growth: pinned(s.speed_growth),
        bounty_base: pinned(s.bounty_base),
        bounty_per_wave: pinned(s.bounty_per_wave),
        count_base: pinned(s.count_base),
        count_per_wave: pinned(s.count_per_wave),
        spawn_jitter: pinned(s.spawn_jitter),
        spawn_gap: pinned(s.spawn_gap),
        spawn_arc: pinned(s.spawn_arc),
    }
}

/// The rules with their numbers pinned, and without the match seed.
pub open spec fn pinned_rules(r: MatchRules) -> MatchRules {
    MatchRules {
        wave_interval: pinned(r.wave_interval),
        first_wave_delay: pinned(r.first_wave_delay),
        call_wave_cooldown: pinned(r.call_wave_cooldown),
        seed: 0,
        ..r
    }
}

// ---------------------------------------------------------------------------
// Order
// ---------------------------------------------------------------------------

/// Towers are ordered by key.
pub open spec fn tower_rank() -> spec_fn(TowerView) -> Seq<int> {
    |t: TowerView| codes(t.key)
}

/// Creep models and difficulties are ordered by key.
pub open spec fn scale_rank() -> spec_fn(ScaleView) -> Seq<int> {
    |c: ScaleView| codes(c.key)
}

/// Game modes are ordered by key.
pub open spec fn mode_rank() -> spec_fn(ModeView) -> Seq<int> {
    |m: ModeView| codes(m.key)
}

/// Waves are ordered by number.
pub open spec fn wave_rank() -> spec_fn(WaveView) -> Seq<int> {
    |w: WaveView| seq![w.index as int]
}

/// The lines of a wave are ordered by model.
pub open spec fn line_rank() -> spec_fn(LineView) -> Seq<int> {
    |c: LineView| codes(c.model)
}

impl Ranked for TowerDef {
    open spec fn rank(&self) -> Seq<int> {
        codes(self.key@)
    }

    fn comes_before(&self, other: &TowerDef) -> (yes: bool) {
        text_before(self.key.as_str(), other.key.as_str())
    }
}

impl Ranked for CreepDef {
    open spec fn rank(&self) -> Seq<int> {
        codes(self.key@)
    }

    fn comes_before(&self, other: &CreepDef) -> (yes: bool) {
        text_before(self.key.as_str(), other.key.as_str())
    }
}

impl Ranked for DifficultyDef {
    open spec fn rank(&self) -> Seq<int> {
        codes(self.key@)
    }

    fn comes_before(&self, other: &DifficultyDef) -> (yes: bool) {
        text_before(self.key.as_str(), other.key.as_str())
    }
}

impl Ranked for GameModeDef {
    open spec fn rank(&self) -> Seq<int> {
        codes(self.key@)
    }

    fn comes_before(&self, other: &GameModeDef) -> (yes: bool) {
        text_before(self.key.as_str(), other.key.as_str())
    }
}

impl Ranked for WaveDef {
    open spec fn rank(&self) -> Seq<int> {
        seq![self.index as int]
    }

    fn comes_before(&self, other: &WaveDef) -> (yes: bool) {
        proof {
            reveal_with_fuel(precedes, 2);
        }
        self.index < other.index
    }
}

impl Ranked for WaveCreep {
    open spec fn rank(&self) -> Seq<int> {
        codes(self.model@)
    }

    fn comes_before(&self, other: &WaveCreep) -> (yes: bool) {
        text_before(self.model.as_str(), other.model.as_str())
    }
}

// ---------------------------------------------------------------------------
// The canonical form
// ---------------------------------------------------------------------------

/// A wave with its lines in order.
pub open spec fn ordered_wave(w: WaveView) -> WaveView {
    WaveView { index: w.index, creeps: sorted(w.creeps, line_rank()) }
}

/// Every collection in order, and every number pinned.
pub open spec fn normalised(v: BalanceView) -> BalanceView {
    BalanceView {
        match_rules: pinned_rules(v.match_rules),
        towers: sorted(v.towers, tower_rank()).map_values(|t: TowerView| pinned_tower(t)),
        creeps: sorted(v.creeps, scale_rank()).map_values(|c: ScaleView| pinned_scale(c)),
        scaling: pinned_scaling(v.scaling),
        waves: sorted(v.waves, wave_rank()).map_values(|w: WaveView| ordered_wave(w)),
        max_wave: v.max_wave,
        difficulties: sorted(v.difficulties, scale_rank()).map_values(|d: ScaleView| pinned_scale(d)),
        modes: sorted(v.modes, mode_rank()),
    }
}

fn pin_tower(t: TowerDef) -> (r: TowerDef)
    ensures
        r@ == pinned_tower(t@),
{
    TowerDef {
        key: t.key,
        name: t.name,
        cost: t.cost,
        range: pin(t.range),
        damage: pin(t.damage),
        cooldown: pin(t.cooldown),
        splash: pin(t.splash),
        slow: pin(t.slow),
        damage_per_level: pin(t.damage_per_level),
        range_per_level: pin(t.range_per_level),
        slow_duration: pin(t.slow_duration),
        upgrade_base_cost: t.upgrade_base_cost,
        upgrade_growth: pin(t.upgrade_growth),
        next: t.next,
    }
}

impl BalanceData {
    fn normalise_towers(&mut self)
        ensures
            final(self)@ == (BalanceView { towers: normalised(old(self)@).towers, ..old(self)@ }),
    {
        let ghost before = self.towers@;
        let ghost view = |t: TowerDef| t@;
        sort(&mut self.towers);
        let ghost ordered = self.towers@;
        proof {
            lemma_sorted_mapped(before, view, |t: TowerDef| t.rank(), tower_rank());
            lemma_sorted(before, |t: TowerDef| t.rank());
            assert(ordered.map_values(view) == sorted(old(self)@.towers, tower_rank()));
        }
        let mut out: Vec<TowerDef> = Vec::new();
        assert(ordered.subrange(0, ordered.len() as int) =~= ordered);
        while self.towers.len() > 0
            invariant
                out@.len() + self.towers@.len() == ordered.len(),
                self.towers@ == ordered.subrange(out@.len() as int, ordered.len() as int),
                forall|k: int| 0 <= k < out@.len() ==> (#[trigger] out@[k])@ == pinned_tower(ordered[k]@),
                self.match_rules == old(self).match_rules,
                self.creeps == old(self).creeps,
                self.waves == old(self).waves,
                self.difficulties == old(self).difficulties,
                self.modes == old(self).modes,
            decreases self.towers@.len(),
        {
            let t: TowerDef = self.towers.remove(0);
            assert(t == ordered[out@.len() as int]);
            out.push(pin_tower(t));
            assert(self.towers@ =~= ordered.subrange(out@.len() as int, ordered.len() as int));
        }
        self.towers = out;
        proof {
            let done = sorted(old(self)@.towers, tower_rank()).map_values(|t: TowerView| pinned_tower(t));
            assert forall|k: int| 0 <= k < out@.len() implies self@.towers[k] == done[k] by {
                assert(out@[k]@ == pinned_tower(ordered[k]@));
                assert(ordered.map_values(view)[k] == ordered[k]@);
            }
            assert(self@.towers =~= done);
            assert(self@ =~= (BalanceView { towers: normalised(old(self)@).towers, ..old(self)@ }));
        }
    }

    fn normalise_creeps(&mut self)
        ensures
            final(self)@ == (BalanceView { creeps: normalised(old(self)@).creeps, ..old(self)@ }),
    {
        let ghost before = self.creeps@;
        let ghost view = |c: CreepDef| c@;
        sort(&mut self.creeps);
        let ghost ordered = self.creeps@;
        proof {
            lemma_sorted_mapped(before, view, |c: CreepDef| c.rank(), scale_rank());
            assert(ordered.map_values(view) == sorted(old(self)@.creeps, scale_rank()));
        }
        let mut out: Vec<CreepDef> = Vec::new();
        assert(ordered.subrange(0, ordered.len() as int) =~= ordered);
        while self.creeps.len() > 0
            invariant
                out@.len() + self.creeps@.len() == ordered.len(),
                self.creeps@ == ordered.subrange(out@.len() as int, ordered.len() as int),
                forall|k: int| 0 <= k < out@.len() ==> (#[trigger] out@[k])@ == pinned_scale(ordered[k]@),
                self.match_rules == old(self).match_rules,
                self.towers == old(self).towers,
                self.waves == old(self).waves,
                self.difficulties == old(self).difficulties,
                self.modes == old(self).modes,
            decreases self.creeps@.len(),
        {
            let c: CreepDef = self.creeps.remove(0);
            assert(c == ordered[out@.len() as int]);
            out.push(
                CreepDef {
                    key: c.key,
                    name: c.name,
                    hp_mult: pin(c.hp_mult),
                    speed_mult: pin(c.speed_mult),
                    bounty_mult: pin(c.bounty_mult),
                },
            );
            assert(self.creeps@ =~= ordered.subrange(out@.len() as int, ordered.len() as int));
        }
        self.creeps = out;
        proof {
            let done = sorted(old(self)@.creeps, scale_rank()).map_values(|c: ScaleView| pinned_scale(c));
            assert forall|k: int| 0 <= k < out@.len() implies self@.creeps[k] == done[k] by {
                assert(out@[k]@ == pinned_scale(ordered[k]@));
                assert(ordered.map_values(view)[k] == ordered[k]@);
            }
            assert(self@.creeps =~= done);
            assert(self@ =~= (BalanceView { creeps: normalised(old(self)@).creeps, ..old(self)@ }));
        }
    }

    fn normalise_difficulties(&mut self)
        ensures
            final(self)@ == (BalanceView { difficulties: normalised(old(self)@).difficulties, ..old(self)@ }),
    {
        let ghost before = self.difficulties@;
        let ghost view = |d: DifficultyDef| d@;
        sort(&mut self.difficulties);
        let ghost ordered = self.difficulties@;
        proof {
            lemma_sorted_mapped(before, view, |d: DifficultyDef| d.rank(), scale_rank());
            assert(ordered.map_values(view) == sorted(old(self)@.difficulties, scale_rank()));
        }
        let mut out: Vec<DifficultyDef> = Vec::new();
        assert(ordered.subrange(0, ordered.len() as int) =~= ordered);
        while self.difficulties.len() > 0
            invariant
                out@.len() + self.difficulties@.len() == ordered.len(),
                self.difficulties@ == ordered.subrange(out@.len() as int, ordered.len() as int),
                forall|k: int| 0 <= k < out@.len() ==> (#[trigger] out@[k])@ == pinned_scale(ordered[k]@),
                self.match_rules == old(self).match_rules,
                self.towers == old(self).towers,
                self.waves == old(self).waves,
                self.creeps == old(self).creeps,
                self.modes == old(self).modes,
            decreases self.difficulties@.len(),
        {
            let d: DifficultyDef = self.difficulties.remove(0);
            assert(d == ordered[out@.len() as int]);
            out.push(
                DifficultyDef {
                    key: d.key,
                    name: d.name,
                    hp_mult: pin(d.hp_mult),
                    speed_mult: pin(d.speed_mult),
                    bounty_mult: pin(d.bounty_mult),
                },
            );
            assert(self.difficulties@ =~= ordered.subrange(out@.len() as int, ordered.len() as int));
        }
        self.difficulties = out;
        proof {
            let done = sorted(old(self)@.difficulties, scale_rank()).map_values(|d: ScaleView| pinned_scale(d));
            assert forall|k: int| 0 <= k < out@.len() implies self@.difficulties[k] == done[k] by {
                assert(out@[k]@ == pinned_scale(ordered[k]@));
                assert(ordered.map_values(view)[k] == ordered[k]@);
            }
            assert(self@.difficulties =~= done);
            assert(self@ =~= (BalanceView { difficulties: normalised(old(self)@).difficulties, ..old(self)@ }));
        }
    }

    fn normalise_waves(&mut self)
        ensures
            final(self)@ == (BalanceView { waves: normalised(old(self)@).waves, ..old(self)@ }),
    {
        let ghost before = self.waves.waves@;
        let ghost view = |w: WaveDef| w@;
        sort(&mut self.waves.waves);
        let ghost ordered = self.waves.waves@;
        proof {
            lemma_sorted_mapped(before, view, |w: WaveDef| w.rank(), wave_rank());
            assert(ordered.map_values(view) == sorted(old(self)@.waves, wave_rank()));
        }
        let mut out: Vec<WaveDef> = Vec::new();
        assert(ordered.subrange(0, ordered.len() as int) =~= ordered);
        while self.waves.waves.len() > 0
            invariant
                out@.len() + self.waves.waves@.len() == ordered.len(),
                self.waves.waves@ == ordered.subrange(out@.len() as int, ordered.len() as int),
                forall|k: int| 0 <= k < out@.len() ==> (#[trigger] out@[k])@ == ordered_wave(ordered[k]@),
                self.match_rules == old(self).match_rules,
                self.towers == old(self).towers,
                self.creeps == old(self).creeps,
                self.waves.scaling == old(self).waves.scaling,
                self.waves.max_wave == old(self).waves.max_wave,
                self.difficulties == old(self).difficulties,
                self.modes == old(self).modes,
            decreases self.waves.waves@.len(),
        {
            let w: WaveDef = self.waves.waves.remove(0);
            assert(w == ordered[out@.len() as int]);
            let mut creeps: Vec<WaveCreep> = w.creeps;
            let ghost lines = creeps@;
            sort(&mut creeps);
            proof {
                lemma_sorted_mapped(lines, |c: WaveCreep| c@, |c: WaveCreep| c.rank(), line_rank());
            }
            out.push(WaveDef { index: w.index, creeps });
            assert(out@[out@.len() - 1]@ == ordered_wave(w@));
            assert(self.waves.waves@ =~= ordered.subrange(out@.len() as int, ordered.len() as int));
        }
        self.waves.waves = out;
        proof {
            let done = sorted(old(self)@.waves, wave_rank()).map_values(|w: WaveView| ordered_wave(w));
            assert forall|k: int| 0 <= k < out@.len() implies self@.waves[k] == done[k] by {
                assert(out@[k]@ == ordered_wave(ordered[k]@));
                assert(ordered.map_values(view)[k] == ordered[k]@);
            }
            assert(self@.waves =~= done);
            assert(self@ =~= (BalanceView { waves: normalised(old(self)@).waves, ..old(self)@ }));
        }
    }

    /// Sort every collection and pin every number, so two semantically equal
    /// sets of tables become the same.
    pub fn normalise(&mut self)
        ensures
            final(self)@ == normalised(old(self)@),
    {
        self.normalise_towers();
        self.normalise_creeps();
        self.normalise_difficulties();
        self.normalise_waves();
        let ghost before = self.modes@;
        sort(&mut self.modes);
        proof {
            lemma_sorted_mapped(before, |m: GameModeDef| m@, |m: GameModeDef| m.rank(), mode_rank());
        }
        let r = self.match_rules;
        self.match_rules = MatchRules {
            start_gold: r.start_gold,
            overrun_cap: r.overrun_cap,
            lose_rule: r.lose_rule,
            starting_lives: r.starting_lives,
            wave_interval: pin(r.wave_interval),
            first_wave_delay: pin(r.first_wave_delay),
            call_wave_cooldown: pin(r.call_wave_cooldown),
            sell_refund_percent: r.sell_refund_percent,
            // The seed is a match setting, not a rule.
            seed: 0,
        };
        let s = self.waves.scaling;
        self.waves.scaling = WaveScaling {
            hp_base: pin(s.hp_base),
            hp_growth: pin(s.hp_growth),
            speed_base: pin(s.speed_base),
            speed_growth: pin(s.speed_growth),
            bounty_base: pin(s.bounty_base),
            bounty_per_wave: pin(s.bounty_per_wave),
            count_base: pin(s.count_base),
            count_per_wave: pin(s.count_per_wave),
            spawn_jitter: pin(s.spawn_jitter),
            spawn_gap: pin(s.spawn_gap),
            spawn_arc: pin(s.spawn_arc),
        };
        assert(self@ =~= normalised(old(self)@));
    }
}

// ---------------------------------------------------------------------------
// Hashing
// ---------------------------------------------------------------------------

/// FNV-1a, 64 bit: every byte is mixed in and the sum multiplied by the prime.
pub open spec fn fnv1a(bytes: Seq<u8>) -> u64
    decreases bytes.len(),
{
    if bytes.len() == 0 {
        0xcbf2_9ce4_8422_2325
    } else {
        let mixed = fnv1a(bytes.drop_last()) ^ (bytes.last() as u64);
        ((mixed * 0x0000_0100_0000_01b3) % 0x1_0000_0000_0000_0000) as u64
    }
}

/// FNV-1a, 64 bit. Tiny, stable, and not worth a dependency.
pub fn fnv1a_64(bytes: &[u8]) -> (hash: u64)
    ensures
        hash == fnv1a(bytes@),
{
    let mut hash: u64 = 0xcbf2_9ce4_8422_2325;
    let mut i: usize = 0;
    while i < bytes.len()
        invariant
            i <= bytes@.len(),
            hash == fnv1a(bytes@.subrange(0, i as int)),
        decreases bytes@.len() - i,
    {
        proof {
            assert(bytes@.subrange(0, i + 1).drop_last() =~= bytes@.subrange(0, i as int));
        }
        hash = (hash ^ (bytes[i] as u64)).wrapping_mul(0x0000_0100_0000_01b3);
        i = i + 1;
    }
    assert(bytes@.subrange(0, bytes@.len() as int) =~= bytes@);
    hash
}

// ---------------------------------------------------------------------------
// Laws
// ---------------------------------------------------------------------------

/// Two sets of tables say the same: the same entries in some order, the same
/// numbers up to the sign of a zero, and any two seeds.
pub open spec fn same_rules(a: BalanceView, b: BalanceView) -> bool {
    let tower = |t: TowerView| pinned_tower(t);
    let scale = |c: ScaleView| pinned_scale(c);
    let wave = |w: WaveView| ordered_wave(w);
    &&& pinned_rules(a.match_rules) == pinned_rules(b.match_rules)
    &&& pinned_scaling(a.scaling) == pinned_scaling(b.scaling)
    &&& a.max_wave == b.max_wave
    &&& a.towers.map_values(tower).to_multiset() == b.towers.map_values(tower).to_multiset()
    &&& a.creeps.map_values(scale).to_multiset() == b.creeps.map_values(scale).to_multiset()
    &&& a.difficulties.map_values(scale).to_multiset() == b.difficulties.map_values(scale).to_multiset()
    &&& a.modes.to_multiset() == b.modes.to_multiset()
    &&& a.waves.map_values(wave).to_multiset() == b.waves.map_values(wave).to_multiset()
}

/// No table holds a key twice.
pub open spec fn keys_distinct(a: BalanceView) -> bool {
    &&& distinct(a.towers, tower_rank())
    &&& distinct(a.creeps, scale_rank())
    &&& distinct(a.difficulties, scale_rank())
    &&& distinct(a.modes, mode_rank())
    &&& distinct(a.waves, wave_rank())
}

proof fn lemma_image_distinct<T>(s: Seq<T>, f: spec_fn(T) -> T, rank: spec_fn(T) -> Seq<int>)
    requires
        distinct(s, rank),
        forall|t: T| #[trigger] rank(t) == rank(f(t)),
    ensures
        distinct(s.map_values(f), rank),
{
    let image = s.map_values(f);
    assert forall|i: int, j: int| 0 <= i < j < image.len() implies rank(#[trigger] image[i]) != rank(
        #[trigger] image[j],
    ) by {
        assert(rank(s[i]) != rank(s[j]));
        assert(image[i] == f(s[i]) && image[j] == f(s[j]));
    }
}

proof fn lemma_same_image<T>(a: Seq<T>, b: Seq<T>, f: spec_fn(T) -> T, rank: spec_fn(T) -> Seq<int>)
    requires
        distinct(a, rank),
        a.map_values(f).to_multiset() == b.map_values(f).to_multiset(),
        forall|t: T| #[trigger] rank(t) == rank(f(t)),
    ensures
        sorted(a, rank).map_values(f) == sorted(b, rank).map_values(f),
{
    lemma_image_distinct(a, f, rank);
    lemma_sorting_forgets_order(a.map_values(f), b.map_values(f), rank);
    lemma_sorted_mapped(a, f, rank, rank);
    lemma_sorted_mapped(b, f, rank, rank);
}

/// Moving entries around, turning a zero's sign, or playing another match on the
/// same rules does not change the canonical form, and so not the hash.
pub proof fn law_the_canonical_form_ignores_order(a: BalanceView, b: BalanceView)
    requires
        same_rules(a, b),
        keys_distinct(a),
    ensures
        normalised(a) == normalised(b),
{
    lemma_same_image(a.towers, b.towers, |t: TowerView| pinned_tower(t), tower_rank());
    lemma_same_image(a.creeps, b.creeps, |c: ScaleView| pinned_scale(c), scale_rank());
    lemma_same_image(a.difficulties, b.difficulties, |c: ScaleView| pinned_scale(c), scale_rank());
    lemma_same_image(a.waves, b.waves, |w: WaveView| ordered_wave(w), wave_rank());
    lemma_sorting_forgets_order(a.modes, b.modes, mode_rank());
    assert(normalised(a) =~= normalised(b));
}

proof fn lemma_image_back<T>(a: Seq<T>, b: Seq<T>, f: spec_fn(T) -> T, rank: spec_fn(T) -> Seq<int>)
    requires
        sorted(a, rank).map_values(f) == sorted(b, rank).map_values(f),
        forall|t: T| #[trigger] rank(t) == rank(f(t)),
    ensures
        a.map_values(f).to_multiset() == b.map_values(f).to_multiset(),
{
    lemma_sorted_mapped(a, f, rank, rank);
    lemma_sorted_mapped(b, f, rank, rank);
    lemma_sorted(a.map_values(f), rank);
    lemma_sorted(b.map_values(f), rank);
}

/// Peers whose canonical forms agree agree on every number: the rules, the
/// curves and every entry of every table are the same, up to the order of the
/// entries, the sign of a zero and the match seed.
pub proof fn law_the_canonical_form_keeps_every_number(a: BalanceView, b: BalanceView)
    requires
        normalised(a) == normalised(b),
    ensures
        same_rules(a, b),
{
    lemma_image_back(a.towers, b.towers, |t: TowerView| pinned_tower(t), tower_rank());
    lemma_image_back(a.creeps, b.creeps, |c: ScaleView| pinned_scale(c), scale_rank());
    lemma_image_back(a.difficulties, b.difficulties, |c: ScaleView| pinned_scale(c), scale_rank());
    lemma_image_back(a.waves, b.waves, |w: WaveView| ordered_wave(w), wave_rank());
    lemma_sorted(a.modes, mode_rank());
    lemma_sorted(b.modes, mode_rank());
}

/// Numbers that are pinned alike are the same number, and waves that are ordered
/// alike have the same number and the same lines.
pub proof fn law_pinning_keeps_the_number(x: Scalar, y: Scalar, v: WaveView, w: WaveView)
    ensures
        pinned(x) == pinned(y) ==> x == y || equal(x, y),
        ordered_wave(v) == ordered_wave(w) ==> v.index == w.index && v.creeps.to_multiset() == w.creeps.to_multiset(),
{
    lemma_sorted(v.creeps, line_rank());
    lemma_sorted(w.creeps, line_rank());
}

/// The same number: equal, or the same pattern where it is none.
pub open spec fn same_number(x: Scalar, y: Scalar) -> bool {
    x == y || equal(x, y)
}

/// The same tower, number for number.
pub open spec fn same_tower(t: TowerView, u: TowerView) -> bool {
    &&& t.key == u.key && t.name == u.name && t.next == u.next
    &&& t.cost == u.cost && t.upgrade_base_cost == u.upgrade_base_cost
    &&& same_number(t.range, u.range) && same_number(t.range_per_level, u.range_per_level)
    &&& same_number(t.damage, u.damage) && same_number(t.damage_per_level, u.damage_per_level)
    &&& same_number(t.cooldown, u.cooldown) && same_number(t.splash, u.splash)
    &&& same_number(t.slow, u.slow) && same_number(t.slow_duration, u.slow_duration)
    &&& same_number(t.upgrade_growth, u.upgrade_growth)
}

/// The same creep model or difficulty, number for number.
pub open spec fn same_scale(c: ScaleView, d: ScaleView) -> bool {
    &&& c.key == d.key && c.name == d.name
    &&& same_number(c.hp_mult, d.hp_mult) && same_number(c.speed_mult, d.speed_mult)
    &&& same_number(c.bounty_mult, d.bounty_mult)
}

/// Peers whose canonical tables agree play by the same numbers: every tower, creep
/// model and difficulty of the one has its like among the other's, field by field,
/// and all the curves and rules are the same but for the match seed.
pub proof fn law_peers_that_agree_play_by_the_same_numbers(a: BalanceView, b: BalanceView, i: int)
    requires
        normalised(a) == normalised(b),
    ensures
        a.towers.len() == b.towers.len(),
        0 <= i < a.towers.len() ==> exists|j: int| 0 <= j < b.towers.len() && same_tower(a.towers[i], #[trigger] b.towers[j]),
        0 <= i < a.creeps.len() ==> exists|j: int| 0 <= j < b.creeps.len() && same_scale(a.creeps[i], #[trigger] b.creeps[j]),
        0 <= i < a.difficulties.len() ==> exists|j: int|
            0 <= j < b.difficulties.len() && same_scale(a.difficulties[i], #[trigger] b.difficulties[j]),
        0 <= i < a.modes.len() ==> b.modes.contains(a.modes[i]),
        ({
            let r = a.match_rules;
            let q = b.match_rules;
            &&& r.start_gold == q.start_gold && r.overrun_cap == q.overrun_cap && r.lose_rule == q.lose_rule
            &&& r.starting_lives == q.starting_lives && r.sell_refund_percent == q.sell_refund_percent
            &&& same_number(r.wave_interval, q.wave_interval) && same_number(r.first_wave_delay, q.first_wave_delay)
            &&& same_number(r.call_wave_cooldown, q.call_wave_cooldown)
        }),
        ({
            let s = a.scaling;
            let t = b.scaling;
            &&& same_number(s.hp_base, t.hp_base) && same_number(s.hp_growth, t.hp_growth)
            &&& same_number(s.speed_base, t.speed_base) && same_number(s.speed_growth, t.speed_growth)
            &&& same_number(s.bounty_base, t.bounty_base) && same_number(s.bounty_per_wave, t.bounty_per_wave)
            &&& same_number(s.count_base, t.count_base) && same_number(s.count_per_wave, t.count_per_wave)
            &&& same_number(s.spawn_jitter, t.spawn_jitter) && same_number(s.spawn_gap, t.spawn_gap)
            &&& same_number(s.spawn_arc, t.spawn_arc)
        }),
        a.max_wave == b.max_wave,
{
    law_the_canonical_form_keeps_every_number(a, b);
    let tower = |t: TowerView| pinned_tower(t);
    let scale = |c: ScaleView| pinned_scale(c);
    lemma_like(a.towers, b.towers, tower, i);
    lemma_like(a.creeps, b.creeps, scale, i);
    lemma_like(a.difficulties, b.difficulties, scale, i);
    if 0 <= i < a.towers.len() {
        let j = choose|j: int| 0 <= j < b.towers.len() && tower(#[trigger] b.towers[j]) == tower(a.towers[i]);
        assert(pinned_tower(b.towers[j]) == pinned_tower(a.towers[i]));
        assert(same_tower(a.towers[i], b.towers[j]));
    }
    if 0 <= i < a.creeps.len() {
        let j = choose|j: int| 0 <= j < b.creeps.len() && scale(#[trigger] b.creeps[j]) == scale(a.creeps[i]);
        assert(same_scale(a.creeps[i], b.creeps[j]));
    }
    if 0 <= i < a.difficulties.len() {
        let j = choose|j: int| 0 <= j < b.difficulties.len() && scale(#[trigger] b.difficulties[j]) == scale(a.difficulties[i]);
        assert(same_scale(a.difficulties[i], b.difficulties[j]));
    }
    if 0 <= i < a.modes.len() {
        broadcast use vstd::seq_lib::group_to_multiset_ensures;

        assert(a.modes.contains(a.modes[i]));
        assert(b.modes.to_multiset().count(a.modes[i]) > 0);
    }
}

proof fn lemma_like<T>(a: Seq<T>, b: Seq<T>, f: spec_fn(T) -> T, i: int)
    requires
        a.map_values(f).to_multiset() == b.map_values(f).to_multiset(),
    ensures
        a.len() == b.len(),
        0 <= i < a.len() ==> exists|j: int| 0 <= j < b.len() && f(#[trigger] b[j]) == f(a[i]),
{
    broadcast use vstd::seq_lib::group_to_multiset_ensures;

    let x = a.map_values(f);
    let y = b.map_values(f);
    assert(x.len() == x.to_multiset().len());
    assert(y.len() == y.to_multiset().len());
    if 0 <= i < a.len() {
        assert(x.contains(x[i]));
        assert(y.to_multiset().count(x[i]) > 0);
        assert(y.contains(x[i]));
        let j = choose|j: int| 0 <= j < y.len() && y[j] == x[i];
        assert(f(b[j]) == f(a[i]));
    }
}

/// One byte more is mixed in so that no two states, and no two bytes, come to the
/// same.
proof fn lemma_mixes(g: u64, h: u64, x: u8, y: u8)
    requires
        wrapped(g ^ (x as u64), 0x0000_0100_0000_01b3) == wrapped(h ^ (y as u64), 0x0000_0100_0000_01b3),
    ensures
        g == h ==> x == y,
        x == y ==> g == h,
{
    assert(wrapped(0x0000_0100_0000_01b3, 0xce96_5057_aff6_957b) == 1) by {
        reveal(wrapped);
        assert(0x0000_0100_0000_01b3int * 0xce96_5057_aff6_957bint == 0xce_9650_590fint * 0x1_0000_0000_0000_0000 + 1);
    }
    lemma_odd_factor(g ^ (x as u64), h ^ (y as u64), 0x0000_0100_0000_01b3, 0xce96_5057_aff6_957b);
    assert(g ^ (x as u64) == h ^ (y as u64) && g == h ==> x == y) by (bit_vector);
    assert(g ^ (x as u64) == h ^ (y as u64) && x == y ==> g == h) by (bit_vector);
}

/// A change to any one byte of a text changes its hash, wherever the byte stands.
pub proof fn law_a_changed_byte_changes_the_hash(bytes: Seq<u8>, i: int, other: u8)
    requires
        0 <= i < bytes.len(),
        other != bytes[i],
    ensures
        fnv1a(bytes.update(i, other)) != fnv1a(bytes),
    decreases bytes.len(),
{
    let changed = bytes.update(i, other);
    let g = fnv1a(bytes.drop_last());
    let h = fnv1a(changed.drop_last());
    reveal(wrapped);
    assert(fnv1a(bytes) == wrapped(g ^ (bytes.last() as u64), 0x0000_0100_0000_01b3));
    assert(fnv1a(changed) == wrapped(h ^ (changed.last() as u64), 0x0000_0100_0000_01b3));
    if i == bytes.len() - 1 {
        assert(changed.drop_last() =~= bytes.drop_last());
    } else {
        law_a_changed_byte_changes_the_hash(bytes.drop_last(), i, other);
        assert(changed.drop_last() =~= bytes.drop_last().update(i, other));
    }
    if fnv1a(changed) == fnv1a(bytes) {
        lemma_mixes(g, h, bytes.last(), changed.last());
    }
}

/// A hash can be unwound byte by byte: undoing the last byte of a text gives the hash
/// of the text without it, back to the hash of nothing.
pub proof fn law_a_hash_unwinds(bytes: Seq<u8>, last: u8)
    ensures
        wrapped(fnv1a(bytes.push(last)), 0xce96_5057_aff6_957b) ^ (last as u64) == fnv1a(bytes),
        fnv1a(Seq::empty()) == 0xcbf2_9ce4_8422_2325,
{
    let g = fnv1a(bytes);
    let x = last as u64;
    assert(bytes.push(last).drop_last() =~= bytes);
    assert(wrapped(0x0000_0100_0000_01b3, 0xce96_5057_aff6_957b) == 1) by {
        reveal(wrapped);
        assert(0x0000_0100_0000_01b3int * 0xce96_5057_aff6_957bint == 0xce_9650_590fint * 0x1_0000_0000_0000_0000 + 1);
    }
    assert(fnv1a(bytes.push(last)) == wrapped(g ^ x, 0x0000_0100_0000_01b3)) by {
        reveal(wrapped);
    }
    lemma_undo(g ^ x, 0x0000_0100_0000_01b3, 0xce96_5057_aff6_957b);
    assert((g ^ x) ^ x == g) by (bit_vector);
}

} // verus!
