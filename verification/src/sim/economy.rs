//! Every place gold changes hands: what a tower costs, what selling it returns,
//! and who is paid when a creep dies.
//!
//! All three intent handlers live here together, because they are one contract:
//!
//!   1. The caller must already have a player record. Nothing here ever makes
//!      one.
//!   2. A tower may only be touched by its owner, and refunds go to the owner --
//!      which, given rule 1 and the check, is also the caller.
//!
//! Every refusal is an `Err` rather than silence, and changes nothing.

use crate::data::balance::{raise_cost, refund, spent, BalanceView};
use crate::data::reject::Reject;
use crate::map::{buildable, on_board, MapView};
use crate::order::zero;
use crate::sim::{Creep, CreepId, Player, PlayerKey, Sim, SimView, Tower};
use crate::table::{dropping, holds, setting, unique, value_of};
use crate::vector::IVec2;
use vstd::prelude::*;

verus! {

// ---------------------------------------------------------------------------
// Kills
// ---------------------------------------------------------------------------

/// Whoever is paid for a creep: the player who landed the last hit, if they are
/// still in the match. A disconnected player is not credited.
pub open spec fn paid(players: Seq<(PlayerKey, Player)>, creep: Creep) -> bool {
    holds(players, creep.last_hit_by) && value_of(players, creep.last_hit_by).connected
}

/// The players after one creep was paid for.
pub open spec fn credited_one(players: Seq<(PlayerKey, Player)>, creep: Creep) -> Seq<(PlayerKey, Player)> {
    let player = value_of(players, creep.last_hit_by);
    if paid(players, creep) {
        setting(
            players,
            creep.last_hit_by,
            Player { gold: (player.gold + creep.bounty) as u32, kills: (player.kills + 1) as u32, ..player },
        )
    } else {
        players
    }
}

/// The players after the first `n` creeps were paid for.
pub open spec fn credited(players: Seq<(PlayerKey, Player)>, gone: Seq<(CreepId, Creep)>, n: int) -> Seq<
    (PlayerKey, Player),
>
    decreases n,
{
    if n <= 0 {
        players
    } else {
        credited_one(credited(players, gone, n - 1), gone[n - 1].1)
    }
}

/// A player's purse has room for a bounty, and the kill counter for a kill.
pub open spec fn purse_has_room(players: Seq<(PlayerKey, Player)>, creep: Creep) -> bool {
    paid(players, creep) ==> {
        &&& value_of(players, creep.last_hit_by).gold + creep.bounty <= u32::MAX
        &&& value_of(players, creep.last_hit_by).kills < u32::MAX
    }
}

/// The purses have room for the first `n` bounties.
pub open spec fn credit_has_room(players: Seq<(PlayerKey, Player)>, gone: Seq<(CreepId, Creep)>, n: int) -> bool
    decreases n,
{
    n <= 0 || (credit_has_room(players, gone, n - 1) && purse_has_room(credited(players, gone, n - 1), gone[n - 1].1))
}

impl Sim {
    /// Pay whoever landed the last hit on a creep, or report that their purse has
    /// no room.
    ///
    /// A creep whose killer has since left pays nobody: the record stays (their
    /// towers do), but a disconnected player is not credited.
    pub(crate) fn credit_kill(&mut self, creep: Creep) -> (ok: bool)
        requires
            unique(old(self).players@),
        ensures
            unique(final(self).players@),
            ok == purse_has_room(old(self).players@, creep),
            ok ==> final(self).players@ == credited_one(old(self).players@, creep),
            final(self)@ == (SimView { players: final(self).players@, ..old(self)@ }),
            final(self).balance == old(self).balance,
            final(self).map == old(self).map,
            final(self).creeps == old(self).creeps,
    {
        let owner = creep.last_hit_by;
        if let Some(p) = self.players.get(&owner) {
            if p.connected {
                if creep.bounty > u32::MAX - p.gold || p.kills == u32::MAX {
                    return false;
                }
                self.players.insert(
                    owner,
                    Player {
                        gold: p.gold + creep.bounty,
                        kills: p.kills + 1,
                        connected: p.connected,
                        wave_call_cooldown: p.wave_call_cooldown,
                    },
                );
            }
        }
        assert(self@ =~= SimView { players: self.players@, ..old(self)@ });
        true
    }
}

// ---------------------------------------------------------------------------
// Towers
// ---------------------------------------------------------------------------

/// What building a tower comes to: the state with the tower paid for and
/// standing, or the first reason to refuse it.
pub open spec fn built(b: BalanceView, m: MapView, v: SimView, who: PlayerKey, cell: IVec2, kind: u8) -> Result<
    SimView,
    Reject,
> {
    let player = value_of(v.players, who);
    let cost = b.towers[kind as int].cost;
    if v.over {
        Err(Reject::MatchOver)
    } else if !holds(v.players, who) {
        Err(Reject::NotInMatch)
    } else if kind >= b.towers.len() {
        Err(Reject::BadKind)
    } else if !on_board(m.tiles_x, m.tiles_y, cell) {
        Err(Reject::OutOfBounds)
    } else if !buildable(m, cell) {
        Err(Reject::PathBlocked)
    } else if holds(v.towers, cell) {
        Err(Reject::Occupied)
    } else if player.gold < cost {
        Err(Reject::NotEnoughGold)
    } else {
        Ok(
            SimView {
                players: setting(v.players, who, Player { gold: (player.gold - cost) as u32, ..player }),
                towers: setting(v.towers, cell, Tower { kind, level: 1, owner: who, cooldown: zero() }),
                ..v
            },
        )
    }
}

/// What upgrading a tower comes to: the state with the tower one level up and
/// paid for, or the first reason to refuse it.
pub open spec fn raised(b: BalanceView, v: SimView, who: PlayerKey, cell: IVec2) -> Result<SimView, Reject> {
    let player = value_of(v.players, who);
    let tower = value_of(v.towers, cell);
    let cost = raise_cost(b.towers[tower.kind as int], tower.level);
    if v.over {
        Err(Reject::MatchOver)
    } else if !holds(v.players, who) {
        Err(Reject::NotInMatch)
    } else if !holds(v.towers, cell) {
        Err(Reject::NoSuchTower)
    } else if tower.owner != who {
        Err(Reject::NotOwner)
    } else if tower.kind >= b.towers.len() {
        Err(Reject::BadKind)
    } else if player.gold < cost {
        Err(Reject::NotEnoughGold)
    } else {
        Ok(
            SimView {
                players: setting(v.players, who, Player { gold: (player.gold - cost) as u32, ..player }),
                towers: setting(v.towers, cell, Tower { level: (tower.level + 1) as u8, ..tower }),
                ..v
            },
        )
    }
}

/// An upgrade that goes through does not take a tower past the last level.
pub open spec fn raise_has_room(b: BalanceView, v: SimView, who: PlayerKey, cell: IVec2) -> bool {
    raised(b, v, who, cell) is Ok ==> value_of(v.towers, cell).level < u8::MAX
}

/// The gold a sale of a tower returns: the refund, as the 32 bits it is paid in.
pub open spec fn proceeds(b: BalanceView, tower: Tower) -> int {
    refund(b.match_rules, b.towers[tower.kind as int], tower.level) % 0x1_0000_0000
}

/// What selling a tower comes to: the state without the tower and with its owner
/// refunded, or the first reason to refuse it. A match that is over does not
/// refuse a sale.
pub open spec fn sold(b: BalanceView, v: SimView, who: PlayerKey, cell: IVec2) -> Result<SimView, Reject> {
    let player = value_of(v.players, who);
    let tower = value_of(v.towers, cell);
    if !holds(v.players, who) {
        Err(Reject::NotInMatch)
    } else if !holds(v.towers, cell) {
        Err(Reject::NoSuchTower)
    } else if tower.owner != who {
        Err(Reject::NotOwner)
    } else if tower.kind >= b.towers.len() {
        Err(Reject::BadKind)
    } else {
        Ok(
            SimView {
                players: setting(
                    v.players,
                    tower.owner,
                    Player { gold: (player.gold + proceeds(b, tower)) as u32, ..player },
                ),
                towers: dropping(v.towers, cell),
                ..v
            },
        )
    }
}

/// A sale that goes through fits in what the refund is counted in, and in the
/// owner's purse.
pub open spec fn sale_has_room(b: BalanceView, v: SimView, who: PlayerKey, cell: IVec2) -> bool {
    let tower = value_of(v.towers, cell);
    sold(b, v, who, cell) is Ok ==> {
        &&& spent(b.towers[tower.kind as int], tower.level) * b.match_rules.sell_refund_percent <= u64::MAX
        &&& value_of(v.players, who).gold + proceeds(b, tower) <= u32::MAX
    }
}

impl Sim {
    /// Upgrade cost scales with the tier, so going tall is a real commitment.
    /// The curve itself lives in the tower's balance entry; a kind without one
    /// costs nothing.
    pub fn upgrade_cost(&self, kind: u8, level: u8) -> (cost: u32)
        ensures
            cost == (if kind < self.balance@.towers.len() {
                raise_cost(self.balance@.towers[kind as int], level)
            } else {
                0
            }),
    {
        match self.balance.tower(kind) {
            Some(tower) => {
                assert(self.balance@.towers[kind as int] == tower@);
                self.balance.upgrade_cost(tower, level)
            },
            None => 0,
        }
    }

    /// Build a tower.
    pub fn try_build(&mut self, who: PlayerKey, cell: IVec2, kind: u8) -> (r: Result<(), Reject>)
        requires
            old(self).wf(),
        ensures
            final(self).wf(),
            final(self).balance == old(self).balance,
            final(self).map == old(self).map,
            match r {
                Ok(_) => built(old(self).balance@, old(self).map@, old(self)@, who, cell, kind) == Ok::<SimView, Reject>(
                    final(self)@,
                ),
                Err(reject) => built(old(self).balance@, old(self).map@, old(self)@, who, cell, kind) == Err::<
                    SimView,
                    Reject,
                >(reject) && final(self)@ == old(self)@,
            },
    {
        if self.over {
            return Err(Reject::MatchOver);
        }
        match self.players.get(&who) {
            None => Err(Reject::NotInMatch),
            Some(player) => {
                let cost: u32 = match self.balance.tower(kind) {
                    Some(tower) => {
                        assert(self.balance@.towers[kind as int] == tower@);
                        tower.cost
                    },
                    None => {
                        return Err(Reject::BadKind);
                    },
                };
                if !self.map.in_bounds(cell) {
                    return Err(Reject::OutOfBounds);
                }
                if !self.is_buildable(cell) {
                    return Err(Reject::PathBlocked);
                }
                if self.towers.contains_key(&cell) {
                    return Err(Reject::Occupied);
                }
                if player.gold < cost {
                    return Err(Reject::NotEnoughGold);
                }
                self.players.insert(
                    who,
                    Player {
                        gold: player.gold - cost,
                        kills: player.kills,
                        connected: player.connected,
                        wave_call_cooldown: player.wave_call_cooldown,
                    },
                );
                self.towers.insert(cell, Tower { kind, level: 1, owner: who, cooldown: zero() });
                assert(self@ =~= built(old(self).balance@, old(self).map@, old(self)@, who, cell, kind)->Ok_0);
                Ok(())
            },
        }
    }

    /// What an upgrade would cost, if the caller may have it.
    fn price_upgrade(&self, who: PlayerKey, cell: IVec2) -> (r: Result<(Player, Tower, u32), Reject>)
        ensures
            match r {
                Ok((player, tower, cost)) => {
                    &&& raised(self.balance@, self@, who, cell) is Ok
                    &&& player == value_of(self@.players, who)
                    &&& tower == value_of(self@.towers, cell)
                    &&& cost == raise_cost(self.balance@.towers[tower.kind as int], tower.level)
                    &&& cost <= player.gold
                },
                Err(reject) => raised(self.balance@, self@, who, cell) == Err::<SimView, Reject>(reject),
            },
    {
        if self.over {
            return Err(Reject::MatchOver);
        }
        let player = match self.players.get(&who) {
            Some(player) => player,
            None => {
                return Err(Reject::NotInMatch);
            },
        };
        // Ownership is checked before anything is spent.
        let tower = match self.towers.get(&cell) {
            Some(tower) => tower,
            None => {
                return Err(Reject::NoSuchTower);
            },
        };
        if tower.owner.0 != who.0 {
            return Err(Reject::NotOwner);
        }
        if self.balance.tower(tower.kind).is_none() {
            return Err(Reject::BadKind);
        }
        let cost: u32 = self.upgrade_cost(tower.kind, tower.level);
        if player.gold < cost {
            return Err(Reject::NotEnoughGold);
        }
        Ok((player, tower, cost))
    }

    /// An upgrade of this tower, if it goes through, does not take it past the
    /// last level.
    pub fn upgrade_fits(&self, who: PlayerKey, cell: IVec2) -> (yes: bool)
        ensures
            yes == raise_has_room(self.balance@, self@, who, cell),
    {
        match self.price_upgrade(who, cell) {
            Ok((_, tower, _)) => tower.level < 255,
            Err(_) => true,
        }
    }

    /// Take a tower up one level.
    pub fn try_upgrade(&mut self, who: PlayerKey, cell: IVec2) -> (r: Result<(), Reject>)
        requires
            old(self).wf(),
            raise_has_room(old(self).balance@, old(self)@, who, cell),
        ensures
            final(self).wf(),
            final(self).balance == old(self).balance,
            final(self).map == old(self).map,
            match r {
                Ok(_) => raised(old(self).balance@, old(self)@, who, cell) == Ok::<SimView, Reject>(final(self)@),
                Err(reject) => raised(old(self).balance@, old(self)@, who, cell) == Err::<SimView, Reject>(reject)
                    && final(self)@ == old(self)@,
            },
    {
        match self.price_upgrade(who, cell) {
            Err(reject) => Err(reject),
            Ok((player, tower, cost)) => {
                self.players.insert(
                    who,
                    Player {
                        gold: player.gold - cost,
                        kills: player.kills,
                        connected: player.connected,
                        wave_call_cooldown: player.wave_call_cooldown,
                    },
                );
                self.towers.insert(
                    cell,
                    Tower {
                        kind: tower.kind,
                        level: tower.level + 1,
                        owner: tower.owner,
                        cooldown: tower.cooldown,
                    },
                );
                assert(self@ =~= raised(old(self).balance@, old(self)@, who, cell)->Ok_0);
                Ok(())
            },
        }
    }

    /// The tower the caller may sell.
    fn tower_to_sell(&self, who: PlayerKey, cell: IVec2) -> (r: Result<(Player, Tower), Reject>)
        ensures
            match r {
                Ok((player, tower)) => {
                    &&& sold(self.balance@, self@, who, cell) is Ok
                    &&& player == value_of(self@.players, who)
                    &&& tower == value_of(self@.towers, cell)
                    &&& holds(self@.towers, cell)
                    &&& tower.owner == who
                    &&& tower.kind < self.balance@.towers.len()
                },
                Err(reject) => sold(self.balance@, self@, who, cell) == Err::<SimView, Reject>(reject),
            },
    {
        let player = match self.players.get(&who) {
            Some(player) => player,
            None => {
                return Err(Reject::NotInMatch);
            },
        };
        let tower = match self.towers.get(&cell) {
            Some(tower) => tower,
            None => {
                return Err(Reject::NoSuchTower);
            },
        };
        if tower.owner.0 != who.0 {
            return Err(Reject::NotOwner);
        }
        if self.balance.tower(tower.kind).is_none() {
            return Err(Reject::BadKind);
        }
        Ok((player, tower))
    }

    /// What a sale of this tower returns, where it can be counted.
    fn price_sale(&self, tower: Tower) -> (gold: Option<u32>)
        requires
            tower.kind < self.balance@.towers.len(),
        ensures
            (gold is Some) == (spent(self.balance@.towers[tower.kind as int], tower.level)
                * self.balance@.match_rules.sell_refund_percent <= u64::MAX),
            gold matches Some(g) ==> g == proceeds(self.balance@, tower),
    {
        let def = &self.balance.towers[tower.kind as usize];
        assert(self.balance@.towers[tower.kind as int] == def@);
        let percent: u32 = self.balance.match_rules.sell_refund_percent;
        let total: u64 = self.balance.total_spend(def, tower.level);
        proof {
            assert(0 <= total * percent <= 0xFFFF_FFFF_FFFF_FFFF * 0xFFFF_FFFF) by (nonlinear_arith)
                requires
                    0 <= total <= 0xFFFF_FFFF_FFFF_FFFF,
                    0 <= percent <= 0xFFFF_FFFF,
            ;
        }
        if total as u128 * percent as u128 <= u64::MAX as u128 {
            Some(self.balance.sell_refund(def, tower.level))
        } else {
            None
        }
    }

    /// A sale of this tower, if it goes through, can be counted and fits in the
    /// owner's purse.
    pub fn sale_fits(&self, who: PlayerKey, cell: IVec2) -> (yes: bool)
        ensures
            yes == sale_has_room(self.balance@, self@, who, cell),
    {
        match self.tower_to_sell(who, cell) {
            Err(_) => true,
            Ok((player, tower)) => match self.price_sale(tower) {
                Some(gold) => gold <= u32::MAX - player.gold,
                None => false,
            },
        }
    }

    /// Sell a tower. The refund goes to the tower's owner, who is the caller.
    pub fn try_sell(&mut self, who: PlayerKey, cell: IVec2) -> (r: Result<(), Reject>)
        requires
            old(self).wf(),
            sale_has_room(old(self).balance@, old(self)@, who, cell),
        ensures
            final(self).wf(),
            final(self).balance == old(self).balance,
            final(self).map == old(self).map,
            match r {
                Ok(_) => sold(old(self).balance@, old(self)@, who, cell) == Ok::<SimView, Reject>(final(self)@),
                Err(reject) => sold(old(self).balance@, old(self)@, who, cell) == Err::<SimView, Reject>(reject)
                    && final(self)@ == old(self)@,
            },
    {
        match self.tower_to_sell(who, cell) {
            Err(reject) => Err(reject),
            Ok((player, tower)) => {
                let gold: u32 = match self.price_sale(tower) {
                    Some(gold) => gold,
                    None => 0,
                };
                self.towers.remove(&cell);
                self.players.insert(
                    tower.owner,
                    Player {
                        gold: player.gold + gold,
                        kills: player.kills,
                        connected: player.connected,
                        wave_call_cooldown: player.wave_call_cooldown,
                    },
                );
                assert(self@ =~= sold(old(self).balance@, old(self)@, who, cell)->Ok_0);
                Ok(())
            },
        }
    }
}

} // verus!
