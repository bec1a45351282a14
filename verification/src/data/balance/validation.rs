//! What makes a set of tables trustworthy.
//!
//! A refusal names the offending field path, e.g. `waves[7].creeps[0].model`, so
//! a person can go and look at it, and it is always the first thing wrong in the
//! order the tables are read. Tables that pass are [`sound`]: every
//! cross-reference resolves and every number is in range.

use crate::data::balance::{
    above, at_least, mode_keys, scale_keys, tower_keys, BalanceData, BalanceError,
    BalanceView, Fault, LineView, MatchRules, ScaleView, TowerView, WaveCreep, WaveScaling,
};
use crate::message::{plain, quotation, quoted, Message, PieceView};
use crate::order::{at_most, half, less, one, zero};
use crate::text::{decimal, is_blank, lemma_position, number, position, same_text, trimmed};
use vstd::prelude::*;

verus! {

// ---------------------------------------------------------------------------
// Field paths
// ---------------------------------------------------------------------------

/// `table[i].field`.
pub open spec fn entry_path(table: Seq<char>, i: int, field: Seq<char>) -> Seq<char> {
    table + "["@ + decimal(i as nat) + "]."@ + field
}

/// `waves[i].creeps[j].field`.
pub open spec fn line_path(i: int, j: int, field: Seq<char>) -> Seq<char> {
    entry_path("waves"@, i, "creeps["@ + decimal(j as nat) + "]."@ + field)
}

/// `waves.scaling.field`.
pub open spec fn scaling_path(field: Seq<char>) -> Seq<char> {
    "waves.scaling."@ + field
}

fn entry(table: &str, i: usize, field: &str) -> (path: String)
    ensures
        path@ == entry_path(table@, i as int, field@),
{
    let mut path = table.to_owned();
    path.append("[");
    path.append(number(i as u64).as_str());
    path.append("].");
    path.append(field);
    path
}

fn line(i: usize, j: usize, field: &str) -> (path: String)
    ensures
        path@ == line_path(i as int, j as int, field@),
{
    let mut tail = "creeps[".to_owned();
    tail.append(number(j as u64).as_str());
    tail.append("].");
    tail.append(field);
    entry("waves", i, tail.as_str())
}

fn scaling(field: &str) -> (path: String)
    ensures
        path@ == scaling_path(field@),
{
    let mut path = "waves.scaling.".to_owned();
    path.append(field);
    path
}

/// A fault with a fixed message.
pub open spec fn says(field: Seq<char>, words: Seq<char>) -> Option<Fault> {
    Some(Fault { field, message: plain(words) })
}

fn refuse(field: String, words: &str) -> (r: Result<(), BalanceError>)
    ensures
        r matches Err(err) && err.fault() == says(field@, words@),
{
    Err(BalanceError::invalid(field, Message::new(words)))
}

/// The first of two findings.
pub open spec fn first(a: Option<Fault>, b: Option<Fault>) -> Option<Fault> {
    if a is Some {
        a
    } else {
        b
    }
}

/// A result reports exactly this finding.
pub open spec fn reports(r: Result<(), BalanceError>, finding: Option<Fault>) -> bool {
    match r {
        Ok(_) => finding is None,
        Err(err) => finding is Some && err.fault() == finding,
    }
}

// ---------------------------------------------------------------------------
// Keys
// ---------------------------------------------------------------------------

/// What is wrong with the key at `i`: blank, or taken by an earlier entry.
pub open spec fn key_fault(namespace: Seq<char>, keys: Seq<Seq<char>>, i: int) -> Option<Fault> {
    if trimmed(keys[i]).len() == 0 {
        says(entry_path(namespace, i, "key"@), "key must not be empty"@)
    } else if keys.take(i).contains(keys[i]) {
        says(entry_path(namespace, i, "key"@), "duplicate key "@ + quotation(keys[i]))
    } else {
        None
    }
}

/// The first wrong key from `i` on.
pub open spec fn keys_fault(namespace: Seq<char>, keys: Seq<Seq<char>>, i: int) -> Option<Fault>
    decreases keys.len() - i,
{
    if i >= keys.len() {
        None
    } else {
        first(key_fault(namespace, keys, i), keys_fault(namespace, keys, i + 1))
    }
}

/// No key is blank, and none occurs twice.
pub open spec fn good_keys(keys: Seq<Seq<char>>) -> bool {
    &&& forall|i: int| 0 <= i < keys.len() ==> trimmed(#[trigger] keys[i]).len() > 0
    &&& forall|i: int, j: int| 0 <= i < j < keys.len() ==> keys[i] != keys[j]
}

proof fn lemma_keys(namespace: Seq<char>, keys: Seq<Seq<char>>, i: int)
    requires
        0 <= i <= keys.len(),
    ensures
        keys_fault(namespace, keys, i) is None <==> (forall|k: int|
            i <= k < keys.len() ==> trimmed(#[trigger] keys[k]).len() > 0 && !keys.take(k).contains(keys[k])),
    decreases keys.len() - i,
{
    if i < keys.len() {
        lemma_keys(namespace, keys, i + 1);
        if keys_fault(namespace, keys, i) is None {
            assert forall|k: int| i <= k < keys.len() implies trimmed(#[trigger] keys[k]).len() > 0 && !keys.take(
                k,
            ).contains(keys[k]) by {
                if k == i {
                    assert(key_fault(namespace, keys, i) is None);
                }
            }
        }
    }
}

proof fn lemma_keys_good(namespace: Seq<char>, keys: Seq<Seq<char>>)
    ensures
        keys_fault(namespace, keys, 0) is None <==> good_keys(keys),
{
    lemma_keys(namespace, keys, 0);
    if good_keys(keys) {
        assert forall|k: int| 0 <= k < keys.len() implies !keys.take(k).contains(#[trigger] keys[k]) by {
            if keys.take(k).contains(keys[k]) {
                let j = choose|j: int| 0 <= j < k && keys.take(k)[j] == keys[k];
                assert(keys[j] == keys[k]);
            }
        }
    }
    if keys_fault(namespace, keys, 0) is None {
        assert forall|i: int, j: int| 0 <= i < j < keys.len() implies keys[i] != keys[j] by {
            assert(keys.take(j)[i] == keys[i]);
        }
    }
}

fn check_unique(namespace: &str, keys: &Vec<&String>) -> (r: Result<(), BalanceError>)
    ensures
        reports(r, keys_fault(namespace@, keys@.map_values(|k: &String| k@), 0)),
{
    let ghost all = keys@.map_values(|k: &String| k@);
    let mut i: usize = 0;
    while i < keys.len()
        invariant
            i <= keys@.len(),
            all == keys@.map_values(|k: &String| k@),
            keys_fault(namespace@, all, 0) == keys_fault(namespace@, all, i as int),
        decreases keys@.len() - i,
    {
        let key: &String = keys[i];
        assert(all[i as int] == key@);
        if is_blank(key.as_str()) {
            return refuse(entry(namespace, i, "key"), "key must not be empty");
        }
        let mut j: usize = 0;
        while j < i
            invariant
                j <= i < keys@.len(),
                all == keys@.map_values(|k: &String| k@),
                all[i as int] == key@,
                trimmed(key@).len() > 0,
                keys_fault(namespace@, all, 0) == keys_fault(namespace@, all, i as int),
                forall|k: int| 0 <= k < j ==> all[k] != key@,
            decreases i - j,
        {
            assert(all[j as int] == keys@[j as int]@);
            if same_text(keys[j].as_str(), key.as_str()) {
                assert(all.take(i as int)[j as int] == key@);
                let mut words = "duplicate key ".to_owned();
                words.append(quoted(key.as_str()).as_str());
                return refuse(entry(namespace, i, "key"), words.as_str());
            }
            j = j + 1;
        }
        assert(!all.take(i as int).contains(key@)) by {
            if all.take(i as int).contains(key@) {
                let k = choose|k: int| 0 <= k < i && all.take(i as int)[k] == key@;
                assert(all[k] == key@);
            }
        }
        i = i + 1;
    }
    Ok(())
}

// ---------------------------------------------------------------------------
// Towers
// ---------------------------------------------------------------------------

/// What is out of range in one tower.
pub open spec fn tower_fault(i: int, t: TowerView) -> Option<Fault> {
    let table = "towers"@;
    if t.cost == 0 {
        says(entry_path(table, i, "cost"@), "cost must be positive"@)
    } else if !less(zero(), t.range) {
        says(entry_path(table, i, "range"@), "range must be positive"@)
    } else if !at_most(zero(), t.damage) {
        says(entry_path(table, i, "damage"@), "damage cannot be negative"@)
    } else if !less(zero(), t.cooldown) {
        says(entry_path(table, i, "cooldown"@), "cooldown must be positive"@)
    } else if !(less(zero(), t.slow) && at_most(t.slow, one())) {
        says(entry_path(table, i, "slow"@), "slow is a speed multiplier in (0.0, 1.0]"@)
    } else if !at_most(zero(), t.damage_per_level) {
        says(entry_path(table, i, "damage_per_level"@), "per-level damage growth cannot be negative"@)
    } else if !at_most(zero(), t.range_per_level) {
        says(entry_path(table, i, "range_per_level"@), "per-level range growth cannot be negative"@)
    } else if !at_most(zero(), t.slow_duration) {
        says(entry_path(table, i, "slow_duration"@), "slow duration cannot be negative"@)
    } else if !at_most(zero(), t.upgrade_growth) {
        says(entry_path(table, i, "upgrade_growth"@), "upgrade growth cannot be negative"@)
    } else {
        None
    }
}

/// The first tower out of range from `i` on.
pub open spec fn towers_fault(towers: Seq<TowerView>, i: int) -> Option<Fault>
    decreases towers.len() - i,
{
    if i >= towers.len() {
        None
    } else {
        first(tower_fault(i, towers[i]), towers_fault(towers, i + 1))
    }
}

/// Every number of a tower is in range.
pub open spec fn good_tower(t: TowerView) -> bool {
    &&& t.cost > 0
    &&& less(zero(), t.range)
    &&& at_most(zero(), t.damage)
    &&& less(zero(), t.cooldown)
    &&& less(zero(), t.slow) && at_most(t.slow, one())
    &&& at_most(zero(), t.damage_per_level)
    &&& at_most(zero(), t.range_per_level)
    &&& at_most(zero(), t.slow_duration)
    &&& at_most(zero(), t.upgrade_growth)
}

proof fn lemma_towers(towers: Seq<TowerView>, i: int)
    requires
        0 <= i <= towers.len(),
    ensures
        towers_fault(towers, i) is None <==> (forall|k: int| i <= k < towers.len() ==> good_tower(#[trigger] towers[k])),
    decreases towers.len() - i,
{
    if i < towers.len() {
        lemma_towers(towers, i + 1);
        assert(tower_fault(i, towers[i]) is None <==> good_tower(towers[i]));
    }
}

/// What the tier link at `at` leads to.
pub open spec fn linked(towers: Seq<TowerView>, at: int) -> Option<int> {
    match towers[at].next {
        Some(key) => position(tower_keys(towers), key),
        None => None,
    }
}

/// The first wrong link of the tier chain that has come to `at` by way of the
/// towers whose keys are `seen`. Going up a tier must lead to a known tower that
/// was not passed before, cost strictly more, and never deal less damage.
pub open spec fn chain_fault(towers: Seq<TowerView>, at: int, seen: Seq<Seq<char>>) -> Option<Fault>
    decreases u32::MAX - towers[at].cost,
{
    let field = entry_path("towers"@, at, "next"@);
    let prev = towers[at];
    match prev.next {
        None => None,
        Some(key) => if seen.contains(key) {
            says(field, "tier chain cycles back to "@ + quotation(key))
        } else {
            match position(tower_keys(towers), key) {
                None => says(field, "unknown tower "@ + quotation(key)),
                Some(to) => {
                    let next = towers[to];
                    if next.cost <= prev.cost {
                        says(
                            field,
                            quotation(next.key) + " costs "@ + decimal(next.cost as nat) + " but its predecessor "@
                                + quotation(prev.key) + " costs "@ + decimal(prev.cost as nat),
                        )
                    } else if less(next.damage, prev.damage) {
                        Some(
                            Fault {
                                field,
                                message: seq![
                                    PieceView::Words(quotation(next.key) + " deals "@),
                                    PieceView::Number(next.damage),
                                    PieceView::Words(" but its predecessor "@ + quotation(prev.key) + " deals "@),
                                    PieceView::Number(prev.damage),
                                ],
                            },
                        )
                    } else {
                        chain_fault(towers, to, seen.push(next.key))
                    }
                },
            }
        },
    }
}

/// The first wrong tier chain among those that start at `start` or later.
pub open spec fn chains_fault(towers: Seq<TowerView>, start: int) -> Option<Fault>
    decreases towers.len() - start,
{
    if start >= towers.len() {
        None
    } else {
        first(chain_fault(towers, start, seq![towers[start].key]), chains_fault(towers, start + 1))
    }
}

/// The link of a tower, if it has one, leads to a tower that costs strictly
/// more and deals no less.
pub open spec fn good_link(towers: Seq<TowerView>, at: int) -> bool {
    towers[at].next is Some ==> {
        &&& linked(towers, at) is Some
        &&& towers[linked(towers, at)->0].cost > towers[at].cost
        &&& !less(towers[linked(towers, at)->0].damage, towers[at].damage)
    }
}

/// Some tower has this key and costs at most `most`.
spec fn among(towers: Seq<TowerView>, key: Seq<char>, most: u32) -> bool {
    exists|k: int| 0 <= k < towers.len() && (#[trigger] towers[k]).key == key && towers[k].cost <= most
}

proof fn lemma_chain(towers: Seq<TowerView>, at: int, seen: Seq<Seq<char>>)
    requires
        0 <= at < towers.len(),
        good_keys(tower_keys(towers)),
        forall|k: int| 0 <= k < towers.len() ==> good_link(towers, k),
        forall|s: int| 0 <= s < seen.len() ==> among(towers, #[trigger] seen[s], towers[at].cost),
    ensures
        chain_fault(towers, at, seen) is None,
    decreases u32::MAX - towers[at].cost,
{
    let keys = tower_keys(towers);
    if towers[at].next is Some {
        assert(good_link(towers, at));
        let key = towers[at].next->0;
        let to = linked(towers, at)->0;
        lemma_position(keys, key);
        assert(towers[to].key == keys[to]);
        assert(!seen.contains(key)) by {
            if seen.contains(key) {
                let s = choose|s: int| 0 <= s < seen.len() && seen[s] == key;
                assert(among(towers, seen[s], towers[at].cost));
                let k = choose|k: int|
                    0 <= k < towers.len() && (#[trigger] towers[k]).key == seen[s] && towers[k].cost <= towers[at].cost;
                assert(keys[k] == keys[to]);
                assert(k == to);
            }
        }
        let more = seen.push(towers[to].key);
        assert forall|s: int| 0 <= s < more.len() implies among(towers, #[trigger] more[s], towers[to].cost) by {
            if s < seen.len() {
                assert(among(towers, seen[s], towers[at].cost));
            } else {
                assert(towers[to].key == more[s]);
            }
        }
        lemma_chain(towers, to, more);
    }
}

proof fn lemma_chains(towers: Seq<TowerView>, start: int)
    requires
        0 <= start <= towers.len(),
        good_keys(tower_keys(towers)),
    ensures
        chains_fault(towers, start) is None ==> (forall|k: int| start <= k < towers.len() ==> good_link(towers, k)),
        (forall|k: int| 0 <= k < towers.len() ==> good_link(towers, k)) ==> chains_fault(towers, start) is None,
    decreases towers.len() - start,
{
    if start < towers.len() {
        lemma_chains(towers, start + 1);
        if chains_fault(towers, start) is None {
            assert(chain_fault(towers, start, seq![towers[start].key]) is None);
            assert(good_link(towers, start));
        }
        if forall|k: int| 0 <= k < towers.len() ==> good_link(towers, k) {
            let seen = seq![towers[start].key];
            assert forall|s: int| 0 <= s < seen.len() implies among(towers, #[trigger] seen[s], towers[start].cost) by {
                assert(towers[start].key == seen[s]);
            }
            lemma_chain(towers, start, seen);
        }
    }
}

impl BalanceData {
    fn check_tower(&self, i: usize) -> (r: Result<(), BalanceError>)
        requires
            i < self.towers@.len(),
        ensures
            reports(r, tower_fault(i as int, self@.towers[i as int])),
    {
        let t = &self.towers[i];
        assert(self@.towers[i as int] == t@);
        if t.cost == 0 {
            return refuse(entry("towers", i, "cost"), "cost must be positive");
        }
        if !above(t.range, zero()) {
            return refuse(entry("towers", i, "range"), "range must be positive");
        }
        if !at_least(t.damage, zero()) {
            return refuse(entry("towers", i, "damage"), "damage cannot be negative");
        }
        if !above(t.cooldown, zero()) {
            return refuse(entry("towers", i, "cooldown"), "cooldown must be positive");
        }
        if !(above(t.slow, zero()) && t.slow.le(one())) {
            return refuse(entry("towers", i, "slow"), "slow is a speed multiplier in (0.0, 1.0]");
        }
        if !at_least(t.damage_per_level, zero()) {
            return refuse(entry("towers", i, "damage_per_level"), "per-level damage growth cannot be negative");
        }
        if !at_least(t.range_per_level, zero()) {
            return refuse(entry("towers", i, "range_per_level"), "per-level range growth cannot be negative");
        }
        if !at_least(t.slow_duration, zero()) {
            return refuse(entry("towers", i, "slow_duration"), "slow duration cannot be negative");
        }
        if !at_least(t.upgrade_growth, zero()) {
            return refuse(entry("towers", i, "upgrade_growth"), "upgrade growth cannot be negative");
        }
        Ok(())
    }

    fn passed(&self, seen: &Vec<usize>, key: &str) -> (yes: bool)
        requires
            forall|s: int| 0 <= s < seen@.len() ==> seen@[s] < self.towers@.len(),
        ensures
            yes == seen@.map_values(|i: usize| self@.towers[i as int].key).contains(key@),
    {
        let ghost keys = seen@.map_values(|i: usize| self@.towers[i as int].key);
        let mut s: usize = 0;
        while s < seen.len()
            invariant
                s <= seen@.len(),
                keys == seen@.map_values(|i: usize| self@.towers[i as int].key),
                forall|s: int| 0 <= s < seen@.len() ==> seen@[s] < self.towers@.len(),
                forall|k: int| 0 <= k < s ==> keys[k] != key@,
            decreases seen@.len() - s,
        {
            assert(keys[s as int] == self.towers@[seen@[s as int] as int].key@);
            if same_text(self.towers[seen[s]].key.as_str(), key) {
                assert(keys[s as int] == key@);
                return true;
            }
            s = s + 1;
        }
        false
    }

    fn check_chain(&self, start: usize) -> (r: Result<(), BalanceError>)
        requires
            start < self.towers@.len(),
        ensures
            reports(r, chain_fault(self@.towers, start as int, seq![self@.towers[start as int].key])),
    {
        let ghost towers = self@.towers;
        let ghost whole = chain_fault(towers, start as int, seq![towers[start as int].key]);
        let mut seen: Vec<usize> = Vec::new();
        seen.push(start);
        let mut at: usize = start;
        assert(seen@.map_values(|i: usize| towers[i as int].key) =~= seq![towers[start as int].key]);
        loop
            invariant
                towers == self@.towers,
                at < self.towers@.len(),
                forall|s: int| 0 <= s < seen@.len() ==> seen@[s] < self.towers@.len(),
                whole == chain_fault(towers, at as int, seen@.map_values(|i: usize| towers[i as int].key)),
                whole == chain_fault(self@.towers, start as int, seq![self@.towers[start as int].key]),
            decreases u32::MAX - towers[at as int].cost,
        {
            let prev = &self.towers[at];
            assert(towers[at as int] == prev@);
            let key: &String = match &prev.next {
                Some(key) => key,
                None => {
                    return Ok(());
                },
            };
            let field = entry("towers", at, "next");
            if self.passed(&seen, key.as_str()) {
                let mut words = "tier chain cycles back to ".to_owned();
                words.append(quoted(key.as_str()).as_str());
                return refuse(field, words.as_str());
            }
            let to: usize = match self.tower_position(key.as_str()) {
                Some(to) => to,
                None => {
                    let mut words = "unknown tower ".to_owned();
                    words.append(quoted(key.as_str()).as_str());
                    return refuse(field, words.as_str());
                },
            };
            let next = &self.towers[to];
            assert(towers[to as int] == next@);
            if next.cost <= prev.cost {
                let mut words = quoted(next.key.as_str());
                words.append(" costs ");
                words.append(number(next.cost as u64).as_str());
                words.append(" but its predecessor ");
                words.append(quoted(prev.key.as_str()).as_str());
                words.append(" costs ");
                words.append(number(prev.cost as u64).as_str());
                return refuse(field, words.as_str());
            }
            if next.damage.lt(prev.damage) {
                let mut head = quoted(next.key.as_str());
                head.append(" deals ");
                let mut tail = " but its predecessor ".to_owned();
                tail.append(quoted(prev.key.as_str()).as_str());
                tail.append(" deals ");
                let message = Message::new(head.as_str()).number(next.damage).words(tail.as_str()).number(prev.damage);
                assert(message@ =~= seq![
                    PieceView::Words(quotation(next.key@) + " deals "@),
                    PieceView::Number(next.damage),
                    PieceView::Words(" but its predecessor "@ + quotation(prev.key@) + " deals "@),
                    PieceView::Number(prev.damage),
                ]);
                return Err(BalanceError::invalid(field, message));
            }
            let ghost before = seen@.map_values(|i: usize| towers[i as int].key);
            seen.push(to);
            at = to;
            assert(seen@.map_values(|i: usize| towers[i as int].key) =~= before.push(towers[to as int].key));
        }
    }

    fn validate_towers(&self) -> (r: Result<(), BalanceError>)
        ensures
            reports(r, first(towers_fault(self@.towers, 0), chains_fault(self@.towers, 0))),
    {
        let mut i: usize = 0;
        while i < self.towers.len()
            invariant
                i <= self.towers@.len(),
                towers_fault(self@.towers, 0) == towers_fault(self@.towers, i as int),
            decreases self.towers@.len() - i,
        {
            let r = self.check_tower(i);
            if r.is_err() {
                return r;
            }
            i = i + 1;
        }
        let mut start: usize = 0;
        while start < self.towers.len()
            invariant
                start <= self.towers@.len(),
                towers_fault(self@.towers, 0) is None,
                chains_fault(self@.towers, 0) == chains_fault(self@.towers, start as int),
            decreases self.towers@.len() - start,
        {
            let r = self.check_chain(start);
            if r.is_err() {
                return r;
            }
            start = start + 1;
        }
        Ok(())
    }
}

// ---------------------------------------------------------------------------
// Creeps
// ---------------------------------------------------------------------------

/// What is out of range in one creep model.
pub open spec fn creep_fault(i: int, c: ScaleView) -> Option<Fault> {
    let table = "creeps"@;
    if !less(zero(), c.hp_mult) {
        says(entry_path(table, i, "hp_mult"@), "health multiplier must be positive"@)
    } else if !less(zero(), c.speed_mult) {
        says(entry_path(table, i, "speed_mult"@), "speed multiplier must be positive"@)
    } else if !at_most(zero(), c.bounty_mult) {
        says(entry_path(table, i, "bounty_mult"@), "bounty multiplier cannot be negative"@)
    } else {
        None
    }
}

/// The first creep model out of range from `i` on.
pub open spec fn creeps_fault(creeps: Seq<ScaleView>, i: int) -> Option<Fault>
    decreases creeps.len() - i,
{
    if i >= creeps.len() {
        None
    } else {
        first(creep_fault(i, creeps[i]), creeps_fault(creeps, i + 1))
    }
}

/// Every multiplier of a creep model is in range.
pub open spec fn good_creep(c: ScaleView) -> bool {
    less(zero(), c.hp_mult) && less(zero(), c.speed_mult) && at_most(zero(), c.bounty_mult)
}

proof fn lemma_creeps(creeps: Seq<ScaleView>, i: int)
    requires
        0 <= i <= creeps.len(),
    ensures
        creeps_fault(creeps, i) is None <==> (forall|k: int| i <= k < creeps.len() ==> good_creep(#[trigger] creeps[k])),
    decreases creeps.len() - i,
{
    if i < creeps.len() {
        lemma_creeps(creeps, i + 1);
        assert(creep_fault(i, creeps[i]) is None <==> good_creep(creeps[i]));
    }
}

// ---------------------------------------------------------------------------
// Waves
// ---------------------------------------------------------------------------

/// What is wrong with one line of one wave.
pub open spec fn line_fault(creeps: Seq<ScaleView>, i: int, j: int, c: LineView) -> Option<Fault> {
    if c.count == 0 {
        says(line_path(i, j, "count"@), "count must be positive"@)
    } else if position(scale_keys(creeps), c.model) is None {
        says(line_path(i, j, "model"@), "unknown creep model "@ + quotation(c.model))
    } else {
        None
    }
}

/// The first wrong line of a wave from `j` on.
pub open spec fn lines_fault(creeps: Seq<ScaleView>, i: int, lines: Seq<LineView>, j: int) -> Option<Fault>
    decreases lines.len() - j,
{
    if j >= lines.len() {
        None
    } else {
        first(line_fault(creeps, i, j, lines[j]), lines_fault(creeps, i, lines, j + 1))
    }
}

/// What is wrong with one wave.
pub open spec fn wave_fault(v: BalanceView, i: int) -> Option<Fault> {
    let index = v.waves[i].index;
    let field = entry_path("waves"@, i, "index"@);
    if index == 0 {
        says(field, "wave indices are 1-based"@)
    } else if i > 0 && v.waves[i - 1].index >= index {
        says(
            field,
            "wave indices must be strictly increasing, "@ + decimal(index as nat) + " comes after "@ + decimal(
                v.waves[i - 1].index as nat,
            ),
        )
    } else if v.max_wave is Some && index > v.max_wave->0 {
        says(field, "wave index "@ + decimal(index as nat) + " is past max_wave "@ + decimal(v.max_wave->0 as nat))
    } else {
        lines_fault(v.creeps, i, v.waves[i].creeps, 0)
    }
}

/// The first wrong wave from `i` on.
pub open spec fn waves_fault(v: BalanceView, i: int) -> Option<Fault>
    decreases v.waves.len() - i,
{
    if i >= v.waves.len() {
        None
    } else {
        first(wave_fault(v, i), waves_fault(v, i + 1))
    }
}

/// A line sends at least one creep of a known model.
pub open spec fn good_line(creeps: Seq<ScaleView>, c: LineView) -> bool {
    c.count > 0 && scale_keys(creeps).contains(c.model)
}

/// A wave comes after the wave before it, within the table's end, and every
/// line of it is good.
pub open spec fn good_wave(v: BalanceView, i: int) -> bool {
    let w = v.waves[i];
    &&& w.index > 0
    &&& i > 0 ==> v.waves[i - 1].index < w.index
    &&& v.max_wave is Some ==> w.index <= v.max_wave->0
    &&& forall|j: int| 0 <= j < w.creeps.len() ==> good_line(v.creeps, #[trigger] w.creeps[j])
}

proof fn lemma_lines(creeps: Seq<ScaleView>, i: int, lines: Seq<LineView>, j: int)
    requires
        0 <= j <= lines.len(),
    ensures
        lines_fault(creeps, i, lines, j) is None <==> (forall|k: int|
            j <= k < lines.len() ==> good_line(creeps, #[trigger] lines[k])),
    decreases lines.len() - j,
{
    if j < lines.len() {
        lemma_lines(creeps, i, lines, j + 1);
        lemma_position(scale_keys(creeps), lines[j].model);
        assert(line_fault(creeps, i, j, lines[j]) is None <==> good_line(creeps, lines[j]));
    }
}

proof fn lemma_waves(v: BalanceView, i: int)
    requires
        0 <= i <= v.waves.len(),
    ensures
        waves_fault(v, i) is None <==> (forall|k: int| i <= k < v.waves.len() ==> good_wave(v, k)),
    decreases v.waves.len() - i,
{
    if i < v.waves.len() {
        lemma_waves(v, i + 1);
        lemma_lines(v.creeps, i, v.waves[i].creeps, 0);
        assert(wave_fault(v, i) is None <==> good_wave(v, i));
        if waves_fault(v, i) is None {
            assert forall|k: int| i <= k < v.waves.len() implies good_wave(v, k) by {
                if k == i {
                    assert(wave_fault(v, i) is None);
                }
            }
        }
    }
}

// ---------------------------------------------------------------------------
// Curves and rules
// ---------------------------------------------------------------------------

/// What is wrong with the curves.
pub open spec fn scaling_fault(s: WaveScaling) -> Option<Fault> {
    if !less(zero(), s.hp_base) {
        says(scaling_path("hp_base"@), "must be positive"@)
    } else if !less(zero(), s.speed_base) {
        says(scaling_path("speed_base"@), "must be positive"@)
    } else if !less(zero(), s.count_base) {
        says(scaling_path("count_base"@), "must be positive"@)
    } else if !at_most(zero(), s.hp_growth) {
        says(scaling_path("hp_growth"@), "cannot be negative"@)
    } else if !at_most(zero(), s.speed_growth) {
        says(scaling_path("speed_growth"@), "cannot be negative"@)
    } else if !at_most(zero(), s.bounty_base) {
        says(scaling_path("bounty_base"@), "cannot be negative"@)
    } else if !at_most(zero(), s.bounty_per_wave) {
        says(scaling_path("bounty_per_wave"@), "cannot be negative"@)
    } else if !at_most(zero(), s.count_per_wave) {
        says(scaling_path("count_per_wave"@), "cannot be negative"@)
    } else if !(at_most(zero(), s.spawn_jitter) && less(s.spawn_jitter, half())) {
        says(scaling_path("spawn_jitter"@), "must be at least 0.0 and below 0.5"@)
    } else if !less(zero(), s.spawn_gap) {
        says(scaling_path("spawn_gap"@), "must be positive"@)
    } else if !less(zero(), s.spawn_arc) {
        says(scaling_path("spawn_arc"@), "must be positive"@)
    } else if less(s.spawn_arc, s.spawn_gap) {
        says(scaling_path("spawn_gap"@), "cannot exceed waves.scaling.spawn_arc"@)
    } else {
        None
    }
}

/// The curves start above nothing, never shrink, and describe a column that
/// keeps its order and fits its window.
pub open spec fn good_scaling(s: WaveScaling) -> bool {
    &&& less(zero(), s.hp_base)
    &&& less(zero(), s.speed_base)
    &&& less(zero(), s.count_base)
    &&& at_most(zero(), s.hp_growth)
    &&& at_most(zero(), s.speed_growth)
    &&& at_most(zero(), s.bounty_base)
    &&& at_most(zero(), s.bounty_per_wave)
    &&& at_most(zero(), s.count_per_wave)
    &&& at_most(zero(), s.spawn_jitter) && less(s.spawn_jitter, half())
    &&& less(zero(), s.spawn_gap)
    &&& less(zero(), s.spawn_arc)
    &&& at_most(s.spawn_gap, s.spawn_arc)
}

/// What is wrong with the match rules.
pub open spec fn rules_fault(r: MatchRules) -> Option<Fault> {
    if r.overrun_cap == 0 {
        says("match_rules.overrun_cap"@, "overrun cap must be positive"@)
    } else if r.starting_lives == 0 {
        says("match_rules.starting_lives"@, "a match must start with at least one life"@)
    } else if !less(zero(), r.wave_interval) {
        says("match_rules.wave_interval"@, "wave interval must be positive"@)
    } else if !at_most(zero(), r.first_wave_delay) {
        says("match_rules.first_wave_delay"@, "first wave delay cannot be negative"@)
    } else if !at_most(zero(), r.call_wave_cooldown) {
        says("match_rules.call_wave_cooldown"@, "call wave cooldown cannot be negative"@)
    } else if r.sell_refund_percent > 100 {
        says("match_rules.sell_refund_percent"@, "a sell refund cannot exceed 100%"@)
    } else {
        None
    }
}

/// The rules describe a match that can be played and lost.
pub open spec fn good_rules(r: MatchRules) -> bool {
    &&& r.overrun_cap > 0
    &&& r.starting_lives > 0
    &&& less(zero(), r.wave_interval)
    &&& at_most(zero(), r.first_wave_delay)
    &&& at_most(zero(), r.call_wave_cooldown)
    &&& r.sell_refund_percent <= 100
}

// ---------------------------------------------------------------------------
// The lot
// ---------------------------------------------------------------------------

/// The first table that is empty.
pub open spec fn empty_fault(v: BalanceView) -> Option<Fault> {
    if v.towers.len() == 0 {
        says("towers"@, "the tower table is empty"@)
    } else if v.creeps.len() == 0 {
        says("creeps"@, "the creep table is empty"@)
    } else if v.difficulties.len() == 0 {
        says("difficulties"@, "the difficulty table is empty"@)
    } else if v.modes.len() == 0 {
        says("modes"@, "the game mode table is empty"@)
    } else {
        None
    }
}

/// The first wrong key of any table.
pub open spec fn namespaces_fault(v: BalanceView) -> Option<Fault> {
    first(
        keys_fault("towers"@, tower_keys(v.towers), 0),
        first(
            keys_fault("creeps"@, scale_keys(v.creeps), 0),
            first(
                keys_fault("difficulties"@, scale_keys(v.difficulties), 0),
                keys_fault("modes"@, mode_keys(v.modes), 0),
            ),
        ),
    )
}

/// The first thing wrong with a set of tables.
pub open spec fn tables_fault(v: BalanceView) -> Option<Fault> {
    first(
        empty_fault(v),
        first(
            namespaces_fault(v),
            first(
                first(towers_fault(v.towers, 0), chains_fault(v.towers, 0)),
                first(
                    creeps_fault(v.creeps, 0),
                    first(waves_fault(v, 0), first(scaling_fault(v.scaling), rules_fault(v.match_rules))),
                ),
            ),
        ),
    )
}

/// Every cross-reference resolves and every range check holds.
pub open spec fn sound(v: BalanceView) -> bool {
    &&& v.towers.len() > 0 && v.creeps.len() > 0 && v.difficulties.len() > 0 && v.modes.len() > 0
    &&& good_keys(tower_keys(v.towers))
    &&& good_keys(scale_keys(v.creeps))
    &&& good_keys(scale_keys(v.difficulties))
    &&& good_keys(mode_keys(v.modes))
    &&& forall|i: int| 0 <= i < v.towers.len() ==> good_tower(#[trigger] v.towers[i])
    &&& forall|i: int| 0 <= i < v.towers.len() ==> good_link(v.towers, i)
    &&& forall|i: int| 0 <= i < v.creeps.len() ==> good_creep(#[trigger] v.creeps[i])
    &&& forall|i: int| 0 <= i < v.waves.len() ==> good_wave(v, i)
    &&& good_scaling(v.scaling)
    &&& good_rules(v.match_rules)
}

/// Nothing is wrong with a set of tables exactly when it is sound.
pub proof fn law_faultless_tables_are_sound(v: BalanceView)
    ensures
        tables_fault(v) is None <==> sound(v),
{
    lemma_keys_good("towers"@, tower_keys(v.towers));
    lemma_keys_good("creeps"@, scale_keys(v.creeps));
    lemma_keys_good("difficulties"@, scale_keys(v.difficulties));
    lemma_keys_good("modes"@, mode_keys(v.modes));
    lemma_towers(v.towers, 0);
    lemma_creeps(v.creeps, 0);
    lemma_waves(v, 0);
    if good_keys(tower_keys(v.towers)) {
        lemma_chains(v.towers, 0);
    }
    assert(scaling_fault(v.scaling) is None <==> good_scaling(v.scaling));
    assert(rules_fault(v.match_rules) is None <==> good_rules(v.match_rules));
    assert(empty_fault(v) is None <==> v.towers.len() > 0 && v.creeps.len() > 0 && v.difficulties.len() > 0
        && v.modes.len() > 0);
}

/// The tower reached from `at` by following `steps` tier links, as long as there
/// are links to follow.
pub open spec fn after_links(towers: Seq<TowerView>, at: int, steps: nat) -> Option<int>
    decreases steps,
{
    if steps == 0 {
        Some(at)
    } else {
        match linked(towers, at) {
            Some(to) => after_links(towers, to, (steps - 1) as nat),
            None => None,
        }
    }
}

/// In sound tables no tier chain ever comes back: following at least one link
/// leads to a tower that costs strictly more than the one it started from.
pub proof fn law_tier_chains_never_come_back(v: BalanceView, at: int, steps: nat)
    requires
        sound(v),
        0 <= at < v.towers.len(),
        steps > 0,
    ensures
        after_links(v.towers, at, steps) matches Some(end) ==> 0 <= end < v.towers.len() && v.towers[end].cost
            > v.towers[at].cost && end != at,
    decreases steps,
{
    match linked(v.towers, at) {
        Some(to) => {
            lemma_position(tower_keys(v.towers), v.towers[at].next->0);
            assert(good_link(v.towers, at));
            if steps > 1 {
                law_tier_chains_never_come_back(v, to, (steps - 1) as nat);
            } else {
                assert(after_links(v.towers, to, 0) == Some(to));
            }
        },
        None => {},
    }
}

impl BalanceData {
    fn validate_creeps(&self) -> (r: Result<(), BalanceError>)
        ensures
            reports(r, creeps_fault(self@.creeps, 0)),
    {
        let mut i: usize = 0;
        while i < self.creeps.len()
            invariant
                i <= self.creeps@.len(),
                creeps_fault(self@.creeps, 0) == creeps_fault(self@.creeps, i as int),
            decreases self.creeps@.len() - i,
        {
            let c = &self.creeps[i];
            assert(self@.creeps[i as int] == c@);
            if !above(c.hp_mult, zero()) {
                return refuse(entry("creeps", i, "hp_mult"), "health multiplier must be positive");
            }
            if !above(c.speed_mult, zero()) {
                return refuse(entry("creeps", i, "speed_mult"), "speed multiplier must be positive");
            }
            if !at_least(c.bounty_mult, zero()) {
                return refuse(entry("creeps", i, "bounty_mult"), "bounty multiplier cannot be negative");
            }
            i = i + 1;
        }
        Ok(())
    }

    fn check_lines(&self, i: usize) -> (r: Result<(), BalanceError>)
        requires
            i < self.waves.waves@.len(),
        ensures
            reports(r, lines_fault(self@.creeps, i as int, self@.waves[i as int].creeps, 0)),
    {
        let lines = &self.waves.waves[i].creeps;
        let ghost all = self@.waves[i as int].creeps;
        assert(all == lines@.map_values(|c: WaveCreep| c@));
        let mut j: usize = 0;
        while j < lines.len()
            invariant
                j <= lines@.len(),
                all == self@.waves[i as int].creeps,
                all == lines@.map_values(|c: WaveCreep| c@),
                lines_fault(self@.creeps, i as int, all, 0) == lines_fault(self@.creeps, i as int, all, j as int),
            decreases lines@.len() - j,
        {
            let c = &lines[j];
            assert(all[j as int] == c@);
            if c.count == 0 {
                return refuse(line(i, j, "count"), "count must be positive");
            }
            if self.creep_by_key(c.model.as_str()).is_none() {
                let mut words = "unknown creep model ".to_owned();
                words.append(quoted(c.model.as_str()).as_str());
                return refuse(line(i, j, "model"), words.as_str());
            }
            j = j + 1;
        }
        Ok(())
    }

    fn validate_waves(&self) -> (r: Result<(), BalanceError>)
        ensures
            reports(r, waves_fault(self@, 0)),
    {
        let mut i: usize = 0;
        while i < self.waves.waves.len()
            invariant
                i <= self.waves.waves@.len(),
                waves_fault(self@, 0) == waves_fault(self@, i as int),
            decreases self.waves.waves@.len() - i,
        {
            let index: u32 = self.waves.waves[i].index;
            assert(self@.waves[i as int] == self.waves.waves@[i as int]@);
            if index == 0 {
                return refuse(entry("waves", i, "index"), "wave indices are 1-based");
            }
            if i > 0 {
                let before: u32 = self.waves.waves[i - 1].index;
                assert(self@.waves[i - 1] == self.waves.waves@[i - 1]@);
                if before >= index {
                    let mut words = "wave indices must be strictly increasing, ".to_owned();
                    words.append(number(index as u64).as_str());
                    words.append(" comes after ");
                    words.append(number(before as u64).as_str());
                    return refuse(entry("waves", i, "index"), words.as_str());
                }
            }
            if let Some(most) = self.waves.max_wave {
                if index > most {
                    let mut words = "wave index ".to_owned();
                    words.append(number(index as u64).as_str());
                    words.append(" is past max_wave ");
                    words.append(number(most as u64).as_str());
                    return refuse(entry("waves", i, "index"), words.as_str());
                }
            }
            let r = self.check_lines(i);
            if r.is_err() {
                return r;
            }
            i = i + 1;
        }
        Ok(())
    }

    fn validate_scaling(&self) -> (r: Result<(), BalanceError>)
        ensures
            reports(r, scaling_fault(self.waves.scaling)),
    {
        let s = &self.waves.scaling;
        if !above(s.hp_base, zero()) {
            return refuse(scaling("hp_base"), "must be positive");
        }
        if !above(s.speed_base, zero()) {
            return refuse(scaling("speed_base"), "must be positive");
        }
        if !above(s.count_base, zero()) {
            return refuse(scaling("count_base"), "must be positive");
        }
        if !at_least(s.hp_growth, zero()) {
            return refuse(scaling("hp_growth"), "cannot be negative");
        }
        if !at_least(s.speed_growth, zero()) {
            return refuse(scaling("speed_growth"), "cannot be negative");
        }
        if !at_least(s.bounty_base, zero()) {
            return refuse(scaling("bounty_base"), "cannot be negative");
        }
        if !at_least(s.bounty_per_wave, zero()) {
            return refuse(scaling("bounty_per_wave"), "cannot be negative");
        }
        if !at_least(s.count_per_wave, zero()) {
            return refuse(scaling("count_per_wave"), "cannot be negative");
        }
        // Half a slot is the point at which two creeps can swap places.
        if !(at_least(s.spawn_jitter, zero()) && s.spawn_jitter.lt(half())) {
            return refuse(scaling("spawn_jitter"), "must be at least 0.0 and below 0.5");
        }
        if !above(s.spawn_gap, zero()) {
            return refuse(scaling("spawn_gap"), "must be positive");
        }
        if !above(s.spawn_arc, zero()) {
            return refuse(scaling("spawn_arc"), "must be positive");
        }
        // A gap larger than the arc would let a wave start past the end of its
        // own arrival window.
        if above(s.spawn_gap, s.spawn_arc) {
            return refuse(scaling("spawn_gap"), "cannot exceed waves.scaling.spawn_arc");
        }
        Ok(())
    }

    fn validate_match_rules(&self) -> (r: Result<(), BalanceError>)
        ensures
            reports(r, rules_fault(self.match_rules)),
    {
        let r = &self.match_rules;
        if r.overrun_cap == 0 {
            return refuse("match_rules.overrun_cap".to_owned(), "overrun cap must be positive");
        }
        if r.starting_lives == 0 {
            return refuse("match_rules.starting_lives".to_owned(), "a match must start with at least one life");
        }
        if !above(r.wave_interval, zero()) {
            return refuse("match_rules.wave_interval".to_owned(), "wave interval must be positive");
        }
        if !at_least(r.first_wave_delay, zero()) {
            return refuse("match_rules.first_wave_delay".to_owned(), "first wave delay cannot be negative");
        }
        if !at_least(r.call_wave_cooldown, zero()) {
            return refuse("match_rules.call_wave_cooldown".to_owned(), "call wave cooldown cannot be negative");
        }
        if r.sell_refund_percent > 100 {
            return refuse("match_rules.sell_refund_percent".to_owned(), "a sell refund cannot exceed 100%");
        }
        Ok(())
    }

    fn check_not_empty(&self) -> (r: Result<(), BalanceError>)
        ensures
            reports(r, empty_fault(self@)),
    {
        if self.towers.len() == 0 {
            return refuse("towers".to_owned(), "the tower table is empty");
        }
        if self.creeps.len() == 0 {
            return refuse("creeps".to_owned(), "the creep table is empty");
        }
        if self.difficulties.len() == 0 {
            return refuse("difficulties".to_owned(), "the difficulty table is empty");
        }
        if self.modes.len() == 0 {
            return refuse("modes".to_owned(), "the game mode table is empty");
        }
        Ok(())
    }

    fn check_namespaces(&self) -> (r: Result<(), BalanceError>)
        ensures
            reports(r, namespaces_fault(self@)),
    {
        let mut towers: Vec<&String> = Vec::new();
        let mut i: usize = 0;
        while i < self.towers.len()
            invariant
                i <= self.towers@.len(),
                towers@.len() == i,
                forall|k: int| 0 <= k < i ==> (#[trigger] towers@[k])@ == self.towers@[k].key@,
            decreases self.towers@.len() - i,
        {
            towers.push(&self.towers[i].key);
            i = i + 1;
        }
        assert(towers@.map_values(|k: &String| k@) =~= tower_keys(self@.towers));
        let r = check_unique("towers", &towers);
        if r.is_err() {
            return r;
        }
        let mut creeps: Vec<&String> = Vec::new();
        let mut i: usize = 0;
        while i < self.creeps.len()
            invariant
                i <= self.creeps@.len(),
                creeps@.len() == i,
                forall|k: int| 0 <= k < i ==> (#[trigger] creeps@[k])@ == self.creeps@[k].key@,
            decreases self.creeps@.len() - i,
        {
            creeps.push(&self.creeps[i].key);
            i = i + 1;
        }
        assert(creeps@.map_values(|k: &String| k@) =~= scale_keys(self@.creeps));
        let r = check_unique("creeps", &creeps);
        if r.is_err() {
            return r;
        }
        let mut difficulties: Vec<&String> = Vec::new();
        let mut i: usize = 0;
        while i < self.difficulties.len()
            invariant
                i <= self.difficulties@.len(),
                difficulties@.len() == i,
                forall|k: int| 0 <= k < i ==> (#[trigger] difficulties@[k])@ == self.difficulties@[k].key@,
            decreases self.difficulties@.len() - i,
        {
            difficulties.push(&self.difficulties[i].key);
            i = i + 1;
        }
        assert(difficulties@.map_values(|k: &String| k@) =~= scale_keys(self@.difficulties));
        let r = check_unique("difficulties", &difficulties);
        if r.is_err() {
            return r;
        }
        let mut modes: Vec<&String> = Vec::new();
        let mut i: usize = 0;
        while i < self.modes.len()
            invariant
                i <= self.modes@.len(),
                modes@.len() == i,
                forall|k: int| 0 <= k < i ==> (#[trigger] modes@[k])@ == self.modes@[k].key@,
            decreases self.modes@.len() - i,
        {
            modes.push(&self.modes[i].key);
            i = i + 1;
        }
        assert(modes@.map_values(|k: &String| k@) =~= mode_keys(self@.modes));
        check_unique("modes", &modes)
    }

    /// Every cross-reference resolves and every range check holds, or the first
    /// thing wrong.
    pub fn validate(&self) -> (r: Result<(), BalanceError>)
        ensures
            reports(r, tables_fault(self@)),
            r is Ok <==> sound(self@),
    {
        proof {
            law_faultless_tables_are_sound(self@);
        }
        let r = self.check_not_empty();
        if r.is_err() {
            return r;
        }
        let r = self.check_namespaces();
        if r.is_err() {
            return r;
        }
        let r = self.validate_towers();
        if r.is_err() {
            return r;
        }
        let r = self.validate_creeps();
        if r.is_err() {
            return r;
        }
        let r = self.validate_waves();
        if r.is_err() {
            return r;
        }
        let r = self.validate_scaling();
        if r.is_err() {
            return r;
        }
        self.validate_match_rules()
    }
}

/// Every number of a tower makes sense: it costs something, reaches somewhere and
/// waits between shots, it neither heals nor speeds anything up, and going up a
/// level takes nothing away.
pub open spec fn tower_makes_sense(t: TowerView) -> bool {
    &&& 1 <= t.cost
    &&& !t.range.nan() && t.range.position() > 0
    &&& !t.damage.nan() && t.damage.position() >= 0
    &&& !t.cooldown.nan() && t.cooldown.position() > 0
    &&& !t.slow.nan() && 0 < t.slow.position() <= one().position()
    &&& !t.slow_duration.nan() && t.slow_duration.position() >= 0
    &&& !t.damage_per_level.nan() && t.damage_per_level.position() >= 0
    &&& !t.range_per_level.nan() && t.range_per_level.position() >= 0
    &&& !t.upgrade_growth.nan() && t.upgrade_growth.position() >= 0
}

/// The link at `at` leads up: to a tower that has the key it names, costs more, and
/// deals no less.
pub open spec fn leads_up(towers: Seq<TowerView>, at: int) -> bool {
    towers[at].next matches Some(key) ==> exists|to: int|
        0 <= to < towers.len() && (#[trigger] towers[to]).key == key && towers[to].cost > towers[at].cost && !less(
            towers[to].damage,
            towers[at].damage,
        )
}

/// Tables that pass make sense, entry by entry; so a table with an entry that does
/// not is refused.
pub proof fn law_tables_that_pass_make_sense(v: BalanceView, i: int, j: int)
    requires
        tables_fault(v) is None,
    ensures
        v.towers.len() > 0 && v.creeps.len() > 0 && v.difficulties.len() > 0 && v.modes.len() > 0,
        0 <= i < v.towers.len() ==> tower_makes_sense(v.towers[i]) && leads_up(v.towers, i) && trimmed(
            v.towers[i].key,
        ).len() > 0,
        0 <= i < j < v.towers.len() ==> v.towers[i].key != v.towers[j].key,
        0 <= i < v.creeps.len() ==> {
            let c = v.creeps[i];
            &&& !c.hp_mult.nan() && c.hp_mult.position() > 0
            &&& !c.speed_mult.nan() && c.speed_mult.position() > 0
            &&& !c.bounty_mult.nan() && c.bounty_mult.position() >= 0
            &&& trimmed(c.key).len() > 0
        },
        0 <= i < j < v.creeps.len() ==> v.creeps[i].key != v.creeps[j].key,
        0 <= i < j < v.difficulties.len() ==> v.difficulties[i].key != v.difficulties[j].key,
        0 <= i < j < v.modes.len() ==> v.modes[i].key != v.modes[j].key,
        0 <= i < v.waves.len() ==> {
            let w = v.waves[i];
            &&& 1 <= w.index
            &&& i > 0 ==> v.waves[i - 1].index < w.index
            &&& v.max_wave matches Some(most) ==> w.index <= most
            &&& 0 <= j < w.creeps.len() ==> w.creeps[j].count >= 1 && exists|k: int|
                0 <= k < v.creeps.len() && (#[trigger] v.creeps[k]).key == w.creeps[j].model
        },
{
    law_faultless_tables_are_sound(v);
    let names = tower_keys(v.towers);
    if 0 <= i < v.towers.len() {
        assert(good_tower(v.towers[i]));
        assert(good_link(v.towers, i));
        assert(trimmed(names[i]).len() > 0);
        if let Some(key) = v.towers[i].next {
            lemma_position(names, key);
            let to = linked(v.towers, i)->0;
            assert(names[to] == v.towers[to].key);
        }
        if i < j < v.towers.len() {
            assert(names[i] != names[j]);
        }
    }
    let models = scale_keys(v.creeps);
    if 0 <= i < v.creeps.len() {
        assert(good_creep(v.creeps[i]));
        assert(trimmed(models[i]).len() > 0);
        if i < j < v.creeps.len() {
            assert(models[i] != models[j]);
        }
    }
    if 0 <= i < j < v.difficulties.len() {
        assert(scale_keys(v.difficulties)[i] != scale_keys(v.difficulties)[j]);
    }
    if 0 <= i < j < v.modes.len() {
        assert(mode_keys(v.modes)[i] != mode_keys(v.modes)[j]);
    }
    if 0 <= i < v.waves.len() {
        assert(good_wave(v, i));
        if 0 <= j < v.waves[i].creeps.len() {
            let line = v.waves[i].creeps[j];
            assert(good_line(v.creeps, line));
            let k = choose|k: int| 0 <= k < models.len() && models[k] == line.model;
            assert(v.creeps[k].key == line.model);
        }
    }
}

/// The curves and rules of tables that pass make sense: waves have health, speed
/// and creeps and never weaken, a column has room and keeps its order, the match
/// can be lost, and a sale returns no more than was paid.
pub proof fn law_rules_that_pass_make_sense(v: BalanceView)
    requires
        tables_fault(v) is None,
    ensures
        ({
            let s = v.scaling;
            &&& !s.hp_base.nan() && s.hp_base.position() > 0
            &&& !s.speed_base.nan() && s.speed_base.position() > 0
            &&& !s.count_base.nan() && s.count_base.position() > 0
            &&& !s.hp_growth.nan() && s.hp_growth.position() >= 0
            &&& !s.speed_growth.nan() && s.speed_growth.position() >= 0
            &&& !s.bounty_base.nan() && s.bounty_base.position() >= 0
            &&& !s.bounty_per_wave.nan() && s.bounty_per_wave.position() >= 0
            &&& !s.count_per_wave.nan() && s.count_per_wave.position() >= 0
            &&& !s.spawn_jitter.nan() && 0 <= s.spawn_jitter.position() < half().position()
            &&& !s.spawn_gap.nan() && !s.spawn_arc.nan() && 0 < s.spawn_gap.position() <= s.spawn_arc.position()
        }),
        ({
            let r = v.match_rules;
            &&& r.overrun_cap >= 1
            &&& r.starting_lives >= 1
            &&& !r.wave_interval.nan() && r.wave_interval.position() > 0
            &&& !r.first_wave_delay.nan() && r.first_wave_delay.position() >= 0
            &&& !r.call_wave_cooldown.nan() && r.call_wave_cooldown.position() >= 0
            &&& r.sell_refund_percent <= 100
        }),
{
    law_faultless_tables_are_sound(v);
}

/// Tables that make sense pass: nothing else is asked of them.
pub proof fn law_sensible_tables_pass(v: BalanceView)
    requires
        v.towers.len() > 0 && v.creeps.len() > 0 && v.difficulties.len() > 0 && v.modes.len() > 0,
        forall|i: int| 0 <= i < v.towers.len() ==> tower_makes_sense(#[trigger] v.towers[i]) && trimmed(
            v.towers[i].key,
        ).len() > 0,
        forall|i: int| 0 <= i < v.towers.len() ==> #[trigger] leads_up(v.towers, i),
        forall|i: int, j: int| 0 <= i < j < v.towers.len() ==> (#[trigger] v.towers[i]).key != (#[trigger] v.towers[j]).key,
        forall|i: int| 0 <= i < v.creeps.len() ==> less(zero(), (#[trigger] v.creeps[i]).hp_mult) && less(
            zero(),
            v.creeps[i].speed_mult,
        ) && at_most(zero(), v.creeps[i].bounty_mult) && trimmed(v.creeps[i].key).len() > 0,
        forall|i: int, j: int| 0 <= i < j < v.creeps.len() ==> (#[trigger] v.creeps[i]).key != (#[trigger] v.creeps[j]).key,
        forall|i: int| 0 <= i < v.difficulties.len() ==> trimmed((#[trigger] v.difficulties[i]).key).len() > 0,
        forall|i: int, j: int|
            0 <= i < j < v.difficulties.len() ==> (#[trigger] v.difficulties[i]).key != (#[trigger] v.difficulties[j]).key,
        forall|i: int| 0 <= i < v.modes.len() ==> trimmed((#[trigger] v.modes[i]).key).len() > 0,
        forall|i: int, j: int| 0 <= i < j < v.modes.len() ==> (#[trigger] v.modes[i]).key != (#[trigger] v.modes[j]).key,
        forall|i: int|
            0 <= i < v.waves.len() ==> (#[trigger] v.waves[i]).index >= 1 && (v.max_wave matches Some(most)
                ==> v.waves[i].index <= most),
        forall|i: int, j: int| 0 <= i < j < v.waves.len() ==> (#[trigger] v.waves[i]).index < (#[trigger] v.waves[j]).index,
        forall|i: int, j: int|
            0 <= i < v.waves.len() && 0 <= j < v.waves[i].creeps.len() ==> (#[trigger] v.waves[i].creeps[j]).count >= 1
                && exists|k: int| 0 <= k < v.creeps.len() && (#[trigger] v.creeps[k]).key == v.waves[i].creeps[j].model,
        ({
            let s = v.scaling;
            &&& less(zero(), s.hp_base) && less(zero(), s.speed_base) && less(zero(), s.count_base)
            &&& at_most(zero(), s.hp_growth) && at_most(zero(), s.speed_growth) && at_most(zero(), s.count_per_wave)
            &&& at_most(zero(), s.bounty_base) && at_most(zero(), s.bounty_per_wave)
            &&& at_most(zero(), s.spawn_jitter) && less(s.spawn_jitter, half())
            &&& less(zero(), s.spawn_gap) && at_most(s.spawn_gap, s.spawn_arc)
        }),
        ({
            let r = v.match_rules;
            &&& r.overrun_cap >= 1 && r.starting_lives >= 1 && r.sell_refund_percent <= 100
            &&& less(zero(), r.wave_interval)
            &&& at_most(zero(), r.first_wave_delay)
            &&& at_most(zero(), r.call_wave_cooldown)
        }),
    ensures
        tables_fault(v) is None,
{
    let names = tower_keys(v.towers);
    assert forall|i: int| 0 <= i < v.towers.len() implies good_tower(#[trigger] v.towers[i]) by {
        assert(tower_makes_sense(v.towers[i]));
    }
    assert forall|i: int| 0 <= i < names.len() implies trimmed(#[trigger] names[i]).len() > 0 by {
        assert(tower_makes_sense(v.towers[i]));
    }
    assert forall|i: int, j: int| 0 <= i < j < names.len() implies names[i] != names[j] by {
        assert(v.towers[i].key != v.towers[j].key);
    }
    assert forall|i: int| 0 <= i < v.towers.len() implies good_link(v.towers, i) by {
        assert(leads_up(v.towers, i));
        if let Some(key) = v.towers[i].next {
            let to = choose|to: int|
                0 <= to < v.towers.len() && (#[trigger] v.towers[to]).key == key && v.towers[to].cost > v.towers[i].cost
                    && !less(v.towers[to].damage, v.towers[i].damage);
            lemma_position(names, key);
            assert(names[to] == key);
            let found = position(names, key)->0;
            assert(names[found] == key);
            if found < to {
                assert(names[found] != names[to]);
            } else if to < found {
                assert(names[to] != names[found]);
            }
        }
    }
    let models = scale_keys(v.creeps);
    assert forall|i: int, j: int| 0 <= i < j < models.len() implies models[i] != models[j] by {
        assert(v.creeps[i].key != v.creeps[j].key);
    }
    assert forall|i: int| 0 <= i < models.len() implies trimmed(#[trigger] models[i]).len() > 0 by {
        assert(models[i] == v.creeps[i].key);
    }
    let levels = scale_keys(v.difficulties);
    assert forall|i: int, j: int| 0 <= i < j < levels.len() implies levels[i] != levels[j] by {
        assert(v.difficulties[i].key != v.difficulties[j].key);
    }
    assert forall|i: int| 0 <= i < levels.len() implies trimmed(#[trigger] levels[i]).len() > 0 by {
        assert(levels[i] == v.difficulties[i].key);
    }
    let modes = mode_keys(v.modes);
    assert forall|i: int, j: int| 0 <= i < j < modes.len() implies modes[i] != modes[j] by {
        assert(v.modes[i].key != v.modes[j].key);
    }
    assert forall|i: int| 0 <= i < modes.len() implies trimmed(#[trigger] modes[i]).len() > 0 by {
        assert(modes[i] == v.modes[i].key);
    }
    assert forall|i: int| 0 <= i < v.waves.len() implies good_wave(v, i) by {
        let w = v.waves[i];
        assert(w.index >= 1);
        if i > 0 {
            assert(v.waves[i - 1].index < v.waves[i].index);
        }
        assert forall|j: int| 0 <= j < w.creeps.len() implies good_line(v.creeps, #[trigger] w.creeps[j]) by {
            assert(v.waves[i].creeps[j].count >= 1);
            let k = choose|k: int| 0 <= k < v.creeps.len() && (#[trigger] v.creeps[k]).key == w.creeps[j].model;
            assert(models[k] == w.creeps[j].model);
        }
    }
    law_faultless_tables_are_sound(v);
}

/// The fields of a tower, in the order they are checked, and whether each makes
/// sense.
pub open spec fn tower_checks(t: TowerView) -> Seq<(Seq<char>, bool)> {
    seq![
        ("cost"@, t.cost >= 1),
        ("range"@, less(zero(), t.range)),
        ("damage"@, at_most(zero(), t.damage)),
        ("cooldown"@, less(zero(), t.cooldown)),
        ("slow"@, less(zero(), t.slow) && at_most(t.slow, one())),
        ("damage_per_level"@, at_most(zero(), t.damage_per_level)),
        ("range_per_level"@, at_most(zero(), t.range_per_level)),
        ("slow_duration"@, at_most(zero(), t.slow_duration)),
        ("upgrade_growth"@, at_most(zero(), t.upgrade_growth)),
    ]
}

/// A fault of a tower names the field that is wrong, under the tower's place in its
/// table: the first of its fields that makes no sense.
pub proof fn law_a_tower_fault_names_its_field(i: int, t: TowerView, k: int)
    requires
        0 <= k < 9,
        !tower_checks(t)[k].1,
        forall|j: int| 0 <= j < k ==> (#[trigger] tower_checks(t)[j]).1,
    ensures
        tower_fault(i, t) matches Some(fault) && fault.field == "towers"@ + "["@ + decimal(i as nat) + "]."@
            + tower_checks(t)[k].0,
{
    let c = tower_checks(t);
    assert(k > 0 ==> c[0].1);
    assert(k > 1 ==> c[1].1);
    assert(k > 2 ==> c[2].1);
    assert(k > 3 ==> c[3].1);
    assert(k > 4 ==> c[4].1);
    assert(k > 5 ==> c[5].1);
    assert(k > 6 ==> c[6].1);
    assert(k > 7 ==> c[7].1);
}

/// A tower has a fault exactly when one of its numbers makes no sense.
pub proof fn law_a_tower_without_a_fault_makes_sense(i: int, t: TowerView)
    ensures
        tower_fault(i, t) is None <==> tower_makes_sense(t),
{
}

/// What is reported is about the first entry that is wrong: every tower before it
/// makes sense.
pub proof fn law_the_first_bad_tower_is_reported(towers: Seq<TowerView>, i: int, from: int)
    requires
        0 <= from <= i < towers.len(),
        !tower_makes_sense(towers[i]),
        forall|j: int| from <= j < i ==> tower_makes_sense(#[trigger] towers[j]),
    ensures
        towers_fault(towers, from) == tower_fault(i, towers[i]),
        towers_fault(towers, from) is Some,
    decreases i - from,
{
    law_a_tower_without_a_fault_makes_sense(from, towers[from]);
    law_a_tower_without_a_fault_makes_sense(i, towers[i]);
    if from < i {
        assert(tower_makes_sense(towers[from]));
        law_the_first_bad_tower_is_reported(towers, i, from + 1);
    }
}

/// A fault of the curves or the rules names what is wrong with them.
pub proof fn law_a_rule_fault_names_its_rule(s: WaveScaling, r: MatchRules)
    ensures
        scaling_fault(s) matches Some(fault) ==> {
            &&& good_scaling(WaveScaling { hp_base: one(), ..s }) ==> fault.field == "waves.scaling."@ + "hp_base"@
            &&& good_scaling(WaveScaling { speed_base: one(), ..s }) ==> fault.field == "waves.scaling."@ + "speed_base"@
            &&& good_scaling(WaveScaling { count_base: one(), ..s }) ==> fault.field == "waves.scaling."@ + "count_base"@
            &&& good_scaling(WaveScaling { hp_growth: zero(), ..s }) ==> fault.field == "waves.scaling."@ + "hp_growth"@
            &&& good_scaling(WaveScaling { speed_growth: zero(), ..s }) ==> fault.field == "waves.scaling."@ + "speed_growth"@
            &&& good_scaling(WaveScaling { bounty_base: zero(), ..s }) ==> fault.field == "waves.scaling."@ + "bounty_base"@
            &&& good_scaling(WaveScaling { bounty_per_wave: zero(), ..s }) ==> fault.field == "waves.scaling."@ + "bounty_per_wave"@
            &&& good_scaling(WaveScaling { count_per_wave: zero(), ..s }) ==> fault.field == "waves.scaling."@ + "count_per_wave"@
            &&& good_scaling(WaveScaling { spawn_jitter: zero(), ..s }) ==> fault.field == "waves.scaling."@ + "spawn_jitter"@
        },
        rules_fault(r) matches Some(fault) ==> {
            &&& r.overrun_cap == 0 ==> fault.field == "match_rules.overrun_cap"@
            &&& r.overrun_cap > 0 && r.starting_lives == 0 ==> fault.field == "match_rules.starting_lives"@
            &&& good_rules(MatchRules { sell_refund_percent: 0, ..r }) ==> fault.field
                == "match_rules.sell_refund_percent"@
            &&& good_rules(MatchRules { wave_interval: one(), ..r }) ==> fault.field == "match_rules.wave_interval"@
            &&& good_rules(MatchRules { first_wave_delay: one(), ..r }) ==> fault.field == "match_rules.first_wave_delay"@
            &&& good_rules(MatchRules { call_wave_cooldown: one(), ..r }) ==> fault.field
                == "match_rules.call_wave_cooldown"@
        },
{
}

} // verus!
