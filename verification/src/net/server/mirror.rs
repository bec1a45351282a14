//! The mirror: what everybody is shown of a match, and what they are told of it.
//!
//! A plan says what is to be done to the mirrors outside: which go, which
//! change, and which are new. Whoever holds the mirrors carries it out, and
//! registers the new ones.

use crate::config::Mode;
use crate::data::components::{CreepHp, CreepVis, MatchView, PlayerView, TowerAt, TowerVis};
use crate::map::MapView;
use crate::net::messages::{PlayerId, ServerNotice};
use crate::net::server::{kept_well, player_key, Handle, Net, NetView};
use crate::scalar::Scalar;
use crate::sim::combat::lemma_filtered;
use crate::sim::waves::{countable, view_of};
use crate::sim::{
    creep_position, rematch, step_events, step_has_room, stepped, Creep, CreepId, Player, PlayerKey, Sim, SimEvent, SimView, Tower,
};
use crate::table::{holds, lemma_place, place_of, setting, unique, value_of, Table};
use crate::vector::IVec2;
use vstd::prelude::*;

verus! {

// ---------------------------------------------------------------------------
// A tick
// ---------------------------------------------------------------------------

/// What every player is told of the first `n` things a tick announced: each wave
/// that started, once.
pub open spec fn broadcast_of(events: Seq<SimEvent>, n: int) -> Seq<ServerNotice>
    decreases n,
{
    if n <= 0 {
        Seq::empty()
    } else {
        match events[n - 1] {
            SimEvent::WaveStarted(wave) => broadcast_of(events, n - 1).push(ServerNotice::WaveStarted(wave)),
            _ => broadcast_of(events, n - 1),
        }
    }
}

/// What every player is told of what a tick announced.
pub fn notices_of(events: &Vec<SimEvent>) -> (notices: Vec<ServerNotice>)
    ensures
        notices@ == broadcast_of(events@, events@.len() as int),
{
    let mut notices: Vec<ServerNotice> = Vec::new();
    let mut i: usize = 0;
    while i < events.len()
        invariant
            i <= events@.len(),
            notices@ == broadcast_of(events@, i as int),
        decreases events@.len() - i,
    {
        if let SimEvent::WaveStarted(wave) = events[i] {
            notices.push(ServerNotice::WaveStarted(wave));
        }
        i = i + 1;
    }
    notices
}

/// Step the match, and say what every player is told of it. Nothing comes back
/// where a counter of the match has no room for the tick.
pub fn tick(sim: &mut Sim, dt: Scalar) -> (r: Option<Vec<ServerNotice>>)
    requires
        old(sim).wf(),
    ensures
        final(sim).wf(),
        final(sim).balance == old(sim).balance,
        final(sim).map == old(sim).map,
        (r is Some) == step_has_room(old(sim).balance@, old(sim).map@, old(sim)@, dt),
        r matches Some(notices) ==> {
            let events = step_events(old(sim).balance@, old(sim).map@, old(sim)@, dt);
            &&& final(sim)@ == stepped(old(sim).balance@, old(sim).map@, old(sim)@, dt)
            &&& notices@ == broadcast_of(events, events.len() as int)
        },
{
    match sim.try_step(dt) {
        Some(events) => Some(notices_of(&events)),
        None => None,
    }
}

// ---------------------------------------------------------------------------
// Mirrors
// ---------------------------------------------------------------------------

/// The mirrors of what is still there.
pub open spec fn kept_mirrors<K, V>(mirrors: Seq<(K, Handle)>, live: Seq<(K, V)>) -> Seq<(K, Handle)> {
    mirrors.filter(|e: (K, Handle)| holds(live, e.0))
}

/// The mirrors of what is gone.
pub open spec fn gone_mirrors<K, V>(mirrors: Seq<(K, Handle)>, live: Seq<(K, V)>) -> Seq<Handle> {
    mirrors.filter(|e: (K, Handle)| !holds(live, e.0)).map_values(|e: (K, Handle)| e.1)
}

/// A creep that has a mirror, and what the mirror is to show.
#[derive(Clone, Copy, PartialEq, Eq, Debug, Structural)]
pub struct CreepShown {
    pub mirror: Handle,
    pub vis: CreepVis,
    pub hp: CreepHp,
}

/// A creep that has no mirror yet, and what a mirror of it is to show.
#[derive(Clone, Copy, PartialEq, Eq, Debug, Structural)]
pub struct CreepNew {
    pub id: CreepId,
    pub vis: CreepVis,
    pub hp: CreepHp,
}

/// What is to be done to the mirrors of the creeps.
#[derive(Clone, PartialEq, Eq, Debug)]
pub struct CreepPlan {
    pub gone: Vec<Handle>,
    pub shown: Vec<CreepShown>,
    pub new: Vec<CreepNew>,
}

/// What a mirror of a creep shows of where it is.
pub open spec fn seen(m: MapView, creep: Creep) -> CreepVis {
    CreepVis { x: creep_position(m, creep).x, y: creep_position(m, creep).y }
}

/// What a mirror of a creep shows of its health.
pub open spec fn health(creep: Creep) -> CreepHp {
    CreepHp { hp: creep.hp, max: creep.max_hp }
}

/// What the mirrors of the first `n` creeps are to show.
pub open spec fn creeps_shown(
    m: MapView,
    mirrors: Seq<(CreepId, Handle)>,
    creeps: Seq<(CreepId, Creep)>,
    n: int,
) -> Seq<CreepShown>
    decreases n,
{
    if n <= 0 {
        Seq::empty()
    } else {
        let before = creeps_shown(m, mirrors, creeps, n - 1);
        let (id, creep) = creeps[n - 1];
        if holds(mirrors, id) {
            before.push(CreepShown { mirror: value_of(mirrors, id), vis: seen(m, creep), hp: health(creep) })
        } else {
            before
        }
    }
}

/// Those of the first `n` creeps that have no mirror yet.
pub open spec fn creeps_new(
    m: MapView,
    mirrors: Seq<(CreepId, Handle)>,
    creeps: Seq<(CreepId, Creep)>,
    n: int,
) -> Seq<CreepNew>
    decreases n,
{
    if n <= 0 {
        Seq::empty()
    } else {
        let before = creeps_new(m, mirrors, creeps, n - 1);
        let (id, creep) = creeps[n - 1];
        if holds(mirrors, id) {
            before
        } else {
            before.push(CreepNew { id, vis: seen(m, creep), hp: health(creep) })
        }
    }
}

/// A tower that has a mirror, and what the mirror is to show.
#[derive(Clone, Copy, PartialEq, Eq, Debug, Structural)]
pub struct TowerShown {
    pub mirror: Handle,
    pub at: TowerAt,
    pub vis: TowerVis,
}

/// A tower that has no mirror yet, and what a mirror of it is to show.
#[derive(Clone, Copy, PartialEq, Eq, Debug, Structural)]
pub struct TowerNew {
    pub cell: IVec2,
    pub at: TowerAt,
    pub vis: TowerVis,
}

/// What is to be done to the mirrors of the towers.
#[derive(Clone, PartialEq, Eq, Debug)]
pub struct TowerPlan {
    pub gone: Vec<Handle>,
    pub shown: Vec<TowerShown>,
    pub new: Vec<TowerNew>,
}

/// What a mirror of a tower shows of where it is.
pub open spec fn stands(cell: IVec2) -> TowerAt {
    TowerAt { x: cell.x, y: cell.y }
}

/// What a mirror of a tower shows of it.
pub open spec fn looks(tower: Tower) -> TowerVis {
    TowerVis { kind: tower.kind, level: tower.level }
}

/// What the mirrors of the first `n` towers are to show.
pub open spec fn towers_shown(mirrors: Seq<(IVec2, Handle)>, towers: Seq<(IVec2, Tower)>, n: int) -> Seq<TowerShown>
    decreases n,
{
    if n <= 0 {
        Seq::empty()
    } else {
        let before = towers_shown(mirrors, towers, n - 1);
        let (cell, tower) = towers[n - 1];
        if holds(mirrors, cell) {
            before.push(TowerShown { mirror: value_of(mirrors, cell), at: stands(cell), vis: looks(tower) })
        } else {
            before
        }
    }
}

/// Those of the first `n` towers that have no mirror yet.
pub open spec fn towers_new(mirrors: Seq<(IVec2, Handle)>, towers: Seq<(IVec2, Tower)>, n: int) -> Seq<TowerNew>
    decreases n,
{
    if n <= 0 {
        Seq::empty()
    } else {
        let before = towers_new(mirrors, towers, n - 1);
        let (cell, tower) = towers[n - 1];
        if holds(mirrors, cell) {
            before
        } else {
            before.push(TowerNew { cell, at: stands(cell), vis: looks(tower) })
        }
    }
}

/// Take out the mirrors of creeps that are gone.
fn reap_creeps(mirrors: &Table<CreepId, Handle>, live: &Table<CreepId, Creep>) -> (r: (Table<CreepId, Handle>, Vec<Handle>))
    requires
        unique(mirrors@),
    ensures
        r.0@ == kept_mirrors(mirrors@, live@),
        r.1@ == gone_mirrors(mirrors@, live@),
        unique(r.0@),
{
    let ghost all = mirrors@;
    let ghost stay = |e: (CreepId, Handle)| holds(live@, e.0);
    let ghost go = |e: (CreepId, Handle)| !holds(live@, e.0);
    let mut kept: Table<CreepId, Handle> = Table::new();
    let mut gone: Vec<Handle> = Vec::new();
    let mut i: usize = 0;
    proof {
        reveal(Seq::filter);
        assert(all.take(0).filter(stay) =~= Seq::empty());
        assert(all.take(0).filter(go).map_values(|e: (CreepId, Handle)| e.1) =~= Seq::empty());
    }
    while i < mirrors.len()
        invariant
            all == mirrors@,
            unique(all),
            stay == (|e: (CreepId, Handle)| holds(live@, e.0)),
            go == (|e: (CreepId, Handle)| !holds(live@, e.0)),
            i <= all.len(),
            kept@ == all.take(i as int).filter(stay),
            unique(kept@),
            gone@ == all.take(i as int).filter(go).map_values(|e: (CreepId, Handle)| e.1),
        decreases all.len() - i,
    {
        let (id, mirror) = mirrors.entry(i);
        proof {
            crate::sim::combat::lemma_filter_step(all, i as int, stay);
            crate::sim::combat::lemma_filter_step(all, i as int, go);
            crate::sim::combat::lemma_next_key_is_new(all, i as int, stay);
        }
        if live.contains_key(&id) {
            kept.push(id, mirror);
        } else {
            gone.push(mirror);
            assert(gone@ =~= all.take(i + 1).filter(go).map_values(|e: (CreepId, Handle)| e.1));
        }
        i = i + 1;
    }
    assert(all.take(all.len() as int) =~= all);
    (kept, gone)
}

/// Take out the mirrors of towers that are gone.
fn reap_towers(mirrors: &Table<IVec2, Handle>, live: &Table<IVec2, Tower>) -> (r: (Table<IVec2, Handle>, Vec<Handle>))
    requires
        unique(mirrors@),
    ensures
        r.0@ == kept_mirrors(mirrors@, live@),
        r.1@ == gone_mirrors(mirrors@, live@),
        unique(r.0@),
{
    let ghost all = mirrors@;
    let ghost stay = |e: (IVec2, Handle)| holds(live@, e.0);
    let ghost go = |e: (IVec2, Handle)| !holds(live@, e.0);
    let mut kept: Table<IVec2, Handle> = Table::new();
    let mut gone: Vec<Handle> = Vec::new();
    let mut i: usize = 0;
    proof {
        reveal(Seq::filter);
        assert(all.take(0).filter(stay) =~= Seq::empty());
        assert(all.take(0).filter(go).map_values(|e: (IVec2, Handle)| e.1) =~= Seq::empty());
    }
    while i < mirrors.len()
        invariant
            all == mirrors@,
            unique(all),
            stay == (|e: (IVec2, Handle)| holds(live@, e.0)),
            go == (|e: (IVec2, Handle)| !holds(live@, e.0)),
            i <= all.len(),
            kept@ == all.take(i as int).filter(stay),
            unique(kept@),
            gone@ == all.take(i as int).filter(go).map_values(|e: (IVec2, Handle)| e.1),
        decreases all.len() - i,
    {
        let (cell, mirror) = mirrors.entry(i);
        proof {
            crate::sim::combat::lemma_filter_step(all, i as int, stay);
            crate::sim::combat::lemma_filter_step(all, i as int, go);
            crate::sim::combat::lemma_next_key_is_new(all, i as int, stay);
        }
        if live.contains_key(&cell) {
            kept.push(cell, mirror);
        } else {
            gone.push(mirror);
            assert(gone@ =~= all.take(i + 1).filter(go).map_values(|e: (IVec2, Handle)| e.1));
        }
        i = i + 1;
    }
    assert(all.take(all.len() as int) =~= all);
    (kept, gone)
}

impl Net {
    /// Bring the mirrors of the creeps into line with the match.
    pub fn plan_creeps(&mut self, sim: &Sim) -> (plan: CreepPlan)
        requires
            old(self).wf(),
            sim.wf(),
        ensures
            final(self).wf(),
            final(self)@ == (NetView { creeps: kept_mirrors(old(self)@.creeps, sim@.creeps), ..old(self)@ }),
            plan.gone@ == gone_mirrors(old(self)@.creeps, sim@.creeps),
            plan.shown@ == creeps_shown(sim.map@, final(self)@.creeps, sim@.creeps, sim@.creeps.len() as int),
            plan.new@ == creeps_new(sim.map@, final(self)@.creeps, sim@.creeps, sim@.creeps.len() as int),
    {
        let ghost n = self@;
        let (kept, gone) = reap_creeps(&self.creeps, &sim.creeps);
        self.creeps = kept;
        assert(self@ =~= NetView { creeps: kept_mirrors(n.creeps, sim@.creeps), ..n });
        let mut shown: Vec<CreepShown> = Vec::new();
        let mut new: Vec<CreepNew> = Vec::new();
        let mut i: usize = 0;
        while i < sim.creeps.len()
            invariant
                sim.wf(),
                i <= sim.creeps@.len(),
                shown@ == creeps_shown(sim.map@, self@.creeps, sim@.creeps, i as int),
                new@ == creeps_new(sim.map@, self@.creeps, sim@.creeps, i as int),
            decreases sim.creeps@.len() - i,
        {
            let (id, creep) = sim.creeps.entry(i);
            let pos = creep.pos(&sim.map);
            let vis = CreepVis { x: pos.x, y: pos.y };
            let hp = CreepHp { hp: creep.hp, max: creep.max_hp };
            match self.creeps.get(&id) {
                Some(mirror) => shown.push(CreepShown { mirror, vis, hp }),
                None => new.push(CreepNew { id, vis, hp }),
            }
            i = i + 1;
        }
        CreepPlan { gone, shown, new }
    }

    /// Register the mirror of a new creep.
    pub fn mirror_creep(&mut self, id: CreepId, mirror: Handle)
        requires
            old(self).wf(),
        ensures
            final(self).wf(),
            final(self)@ == (NetView { creeps: setting(old(self)@.creeps, id, mirror), ..old(self)@ }),
    {
        self.creeps.insert(id, mirror);
        assert(self@ =~= NetView { creeps: setting(old(self)@.creeps, id, mirror), ..old(self)@ });
    }

    /// Bring the mirrors of the towers into line with the match.
    pub fn plan_towers(&mut self, sim: &Sim) -> (plan: TowerPlan)
        requires
            old(self).wf(),
            sim.wf(),
        ensures
            final(self).wf(),
            final(self)@ == (NetView { towers: kept_mirrors(old(self)@.towers, sim@.towers), ..old(self)@ }),
            plan.gone@ == gone_mirrors(old(self)@.towers, sim@.towers),
            plan.shown@ == towers_shown(final(self)@.towers, sim@.towers, sim@.towers.len() as int),
            plan.new@ == towers_new(final(self)@.towers, sim@.towers, sim@.towers.len() as int),
    {
        let ghost n = self@;
        let (kept, gone) = reap_towers(&self.towers, &sim.towers);
        self.towers = kept;
        assert(self@ =~= NetView { towers: kept_mirrors(n.towers, sim@.towers), ..n });
        let mut shown: Vec<TowerShown> = Vec::new();
        let mut new: Vec<TowerNew> = Vec::new();
        let mut i: usize = 0;
        while i < sim.towers.len()
            invariant
                i <= sim.towers@.len(),
                shown@ == towers_shown(self@.towers, sim@.towers, i as int),
                new@ == towers_new(self@.towers, sim@.towers, i as int),
            decreases sim.towers@.len() - i,
        {
            let (cell, tower) = sim.towers.entry(i);
            let at = TowerAt { x: cell.x, y: cell.y };
            let vis = TowerVis { kind: tower.kind, level: tower.level };
            match self.towers.get(&cell) {
                Some(mirror) => shown.push(TowerShown { mirror, at, vis }),
                None => new.push(TowerNew { cell, at, vis }),
            }
            i = i + 1;
        }
        TowerPlan { gone, shown, new }
    }

    /// Register the mirror of a new tower.
    pub fn mirror_tower(&mut self, cell: IVec2, mirror: Handle)
        requires
            old(self).wf(),
        ensures
            final(self).wf(),
            final(self)@ == (NetView { towers: setting(old(self)@.towers, cell, mirror), ..old(self)@ }),
    {
        self.towers.insert(cell, mirror);
        assert(self@ =~= NetView { towers: setting(old(self)@.towers, cell, mirror), ..old(self)@ });
    }

    /// The end of the match, to be told to every player; once.
    pub fn announce(&mut self, sim: &Sim) -> (notice: Option<ServerNotice>)
        ensures
            old(self).wf() ==> final(self).wf(),
            final(self)@ == heard_of(old(self)@, sim@),
            notice == end_notice(old(self)@, sim@),
    {
        if !sim.over || self.announced_over {
            assert(self@ =~= NetView { announced_over: old(self)@.announced_over || sim@.over, ..old(self)@ });
            return None;
        }
        self.announced_over = true;
        assert(self@ =~= NetView { announced_over: true, ..old(self)@ });
        Some(ServerNotice::GameOver { wave: sim.wave, lives: sim.lives, leaks: sim.leaks })
    }

    /// The view that a host's own client reads: a host shares the server's world,
    /// so which of the views is its own is decided by its identity. Nothing where
    /// one is marked already, or where this process is no host.
    pub fn host_view(&self, mode: Mode, marked: bool, id: PlayerId) -> (view: Option<Handle>)
        ensures
            view == hosts_own(self@, mode, marked, id),
    {
        if !mode.is_host() || marked {
            return None;
        }
        self.views.get(&player_key(id))
    }
}

/// The bookkeeping once the end of a match, if it has come, was told.
pub open spec fn heard_of(n: NetView, v: SimView) -> NetView {
    NetView { announced_over: n.announced_over || v.over, ..n }
}

/// The bookkeeping of a match that starts over: its end has not been told.
pub open spec fn unlatched(n: NetView) -> NetView {
    NetView { announced_over: false, ..n }
}

/// The view that is a host's own: the one of the identity it plays under. Nothing
/// where one is marked already, or where this process is no host.
pub open spec fn hosts_own(n: NetView, mode: Mode, marked: bool, id: PlayerId) -> Option<Handle> {
    if mode == Mode::Host && !marked && holds(n.views, PlayerKey(id.0)) {
        Some(value_of(n.views, PlayerKey(id.0)))
    } else {
        None
    }
}

/// What is to be told of the end of a match: nothing while it runs, and nothing
/// once it has been told.
pub open spec fn end_notice(n: NetView, v: SimView) -> Option<ServerNotice> {
    if v.over && !n.announced_over {
        Some(ServerNotice::GameOver { wave: v.wave as u32, lives: v.lives as u32, leaks: v.leaks as u32 })
    } else {
        None
    }
}

/// Start the match over: the sim, and the latch that would otherwise swallow the
/// second defeat's notice, together.
pub fn reset_match(sim: &mut Sim, net: &mut Net)
    requires
        old(sim).wf(),
        old(net).wf(),
    ensures
        final(sim).wf(),
        final(net).wf(),
        final(sim).balance == old(sim).balance,
        final(sim).map == old(sim).map,
        final(sim)@ == rematch(old(sim).balance@, old(sim)@),
        final(net)@ == unlatched(old(net)@),
{
    sim.reset();
    net.announced_over = false;
    assert(net@ =~= NetView { announced_over: false, ..old(net)@ });
}

/// What is to be written over what is there: nothing where it is the same.
pub open spec fn change_to<T>(have: T, want: T) -> Option<T> {
    if have == want {
        None
    } else {
        Some(want)
    }
}

/// The match state to be shown instead of this one, if it changed. It is compared
/// before it is written, so that a quiet board stays off the wire.
pub fn match_change(sim: &Sim, have: &MatchView) -> (want: Option<MatchView>)
    requires
        countable(sim.balance@, sim.map@, sim@),
    ensures
        want == change_to(*have, view_of(sim.balance@, sim.map@, sim@)),
{
    let view = sim.match_view();
    if *have == view {
        None
    } else {
        Some(view)
    }
}

/// What a player's view shows.
pub open spec fn purse(player: Player) -> PlayerView {
    PlayerView { gold: player.gold, kills: player.kills }
}

/// What a player's view is to show instead, if it changed.
pub fn purse_change(sim: &Sim, key: PlayerKey, have: &PlayerView) -> (want: Option<PlayerView>)
    ensures
        want == (if holds(sim@.players, key) {
            change_to(*have, purse(value_of(sim@.players, key)))
        } else {
            None
        }),
{
    match sim.players.get(&key) {
        None => None,
        Some(player) => {
            if have.gold != player.gold || have.kills != player.kills {
                Some(PlayerView { gold: player.gold, kills: player.kills })
            } else {
                None
            }
        },
    }
}

// ---------------------------------------------------------------------------
// Refusals
// ---------------------------------------------------------------------------

/// Frames a refused peer is kept alive so that its refusal can be written: the
/// refusal has to leave before the link goes. One is enough; the second is
/// margin.
pub const REFUSAL_GRACE_FRAMES: u8 = 2;

/// What is left of a refused peer's grace after a frame; nothing where the link is
/// to be dropped.
pub open spec fn aged(grace: u8) -> Option<u8> {
    if grace == 0 {
        None
    } else {
        Some((grace - 1) as u8)
    }
}

/// One frame of a refused peer's grace: what is left of it, or nothing where the
/// link is to be dropped now.
pub fn age_refusal(grace: u8) -> (left: Option<u8>)
    ensures
        left == aged(grace),
{
    if grace == 0 {
        None
    } else {
        Some(grace - 1)
    }
}

// ---------------------------------------------------------------------------
// Laws
// ---------------------------------------------------------------------------

/// A defeat is told once, and a rematch's defeat is told again.
pub proof fn law_a_defeat_is_told_once(n: NetView, v: SimView)
    ensures
        end_notice(heard_of(n, v), v) is None,
        v.over ==> end_notice(unlatched(n), v) is Some,
        v.over ==> end_notice(unlatched(heard_of(n, v)), v) is Some,
        !v.over ==> end_notice(n, v) is None,
        !v.over ==> heard_of(n, v) == n,
        heard_of(n, v) == (NetView { announced_over: heard_of(n, v).announced_over, ..n }),
        unlatched(n) == (NetView { announced_over: unlatched(n).announced_over, ..n }),
{
}

/// Once the new creeps of a plan have been given mirrors, exactly the creeps of
/// the match are mirrored.
pub proof fn law_the_mirror_follows_the_board(n: NetView, v: SimView, m: MapView, mirrors: Seq<Handle>, id: CreepId)
    requires
        kept_well(n),
        unique(v.creeps),
        mirrors.len() == creeps_new(
            m,
            kept_mirrors(n.creeps, v.creeps),
            v.creeps,
            v.creeps.len() as int,
        ).len(),
    ensures
        ({
            let kept = kept_mirrors(n.creeps, v.creeps);
            let new = creeps_new(m, kept, v.creeps, v.creeps.len() as int);
            holds(registered(kept, new, mirrors, new.len() as int), id) <==> holds(v.creeps, id)
        }),
{
    let kept = kept_mirrors(n.creeps, v.creeps);
    let new = creeps_new(m, kept, v.creeps, v.creeps.len() as int);
    lemma_registered(kept, new, mirrors, new.len() as int, id);
    lemma_new_creeps(m, kept, v.creeps, v.creeps.len() as int, id);
    let stay = |e: (CreepId, Handle)| holds(v.creeps, e.0);
    lemma_filtered(n.creeps, stay);
    lemma_place(kept, id);
    lemma_place(v.creeps, id);
    if holds(kept, id) {
        let p = place_of(kept, id);
        assert(stay(kept[p]));
    }
}

/// The mirrors after the first `count` new creeps were given one.
pub open spec fn registered(
    kept: Seq<(CreepId, Handle)>,
    new: Seq<CreepNew>,
    mirrors: Seq<Handle>,
    count: int,
) -> Seq<(CreepId, Handle)>
    decreases count,
{
    if count <= 0 {
        kept
    } else {
        setting(registered(kept, new, mirrors, count - 1), new[count - 1].id, mirrors[count - 1])
    }
}

proof fn lemma_registered(kept: Seq<(CreepId, Handle)>, new: Seq<CreepNew>, mirrors: Seq<Handle>, count: int, id: CreepId)
    requires
        0 <= count <= new.len(),
        mirrors.len() == new.len(),
    ensures
        holds(registered(kept, new, mirrors, count), id) <==> (holds(kept, id) || exists|i: int|
            0 <= i < count && (#[trigger] new[i]).id == id),
    decreases count,
{
    if count > 0 {
        lemma_registered(kept, new, mirrors, count - 1, id);
        crate::table::lemma_setting(
            registered(kept, new, mirrors, count - 1),
            new[count - 1].id,
            mirrors[count - 1],
            id,
        );
        if new[count - 1].id == id {
            assert(holds(registered(kept, new, mirrors, count), id));
        } else if exists|i: int| 0 <= i < count && (#[trigger] new[i]).id == id {
            let i = choose|i: int| 0 <= i < count && (#[trigger] new[i]).id == id;
            assert(i < count - 1);
        }
    }
}

proof fn lemma_new_creeps(
    m: MapView,
    mirrors: Seq<(CreepId, Handle)>,
    creeps: Seq<(CreepId, Creep)>,
    n: int,
    id: CreepId,
)
    requires
        0 <= n <= creeps.len(),
    ensures
        (exists|i: int| 0 <= i < creeps_new(m, mirrors, creeps, n).len() && (#[trigger] creeps_new(m, mirrors, creeps, n)[i]).id
            == id) <==> (!holds(mirrors, id) && exists|k: int| 0 <= k < n && (#[trigger] creeps[k]).0 == id),
        n == creeps.len() ==> ((exists|k: int| 0 <= k < n && (#[trigger] creeps[k]).0 == id) <==> holds(creeps, id)),
    decreases n,
{
    lemma_place(creeps, id);
    if n == creeps.len() && holds(creeps, id) {
        assert(creeps[place_of(creeps, id)].0 == id);
    }
    if n > 0 {
        lemma_new_creeps(m, mirrors, creeps, n - 1, id);
        let before = creeps_new(m, mirrors, creeps, n - 1);
        let now = creeps_new(m, mirrors, creeps, n);
        let key = creeps[n - 1].0;
        if exists|i: int| 0 <= i < now.len() && (#[trigger] now[i]).id == id {
            let i = choose|i: int| 0 <= i < now.len() && (#[trigger] now[i]).id == id;
            if i < before.len() {
                assert(before[i].id == id);
                let k = choose|k: int| 0 <= k < n - 1 && (#[trigger] creeps[k]).0 == id;
                assert(creeps[k].0 == id);
            } else {
                assert(creeps[n - 1].0 == id);
            }
        }
        if !holds(mirrors, id) && exists|k: int| 0 <= k < n && (#[trigger] creeps[k]).0 == id {
            let k = choose|k: int| 0 <= k < n && (#[trigger] creeps[k]).0 == id;
            if k == n - 1 {
                assert(now[now.len() - 1].id == id);
            } else {
                assert(exists|i: int| 0 <= i < before.len() && (#[trigger] before[i]).id == id);
                let i = choose|i: int| 0 <= i < before.len() && (#[trigger] before[i]).id == id;
                assert(now[i].id == id);
            }
        }
    }
}

/// Every creep is shown as it is. One that has a mirror has that mirror changed to
/// its own health and place, and one that has none gets a new one of the same; a
/// wounded creep is shown wounded.
pub proof fn law_a_creep_is_shown_as_it_is(
    m: MapView,
    mirrors: Seq<(CreepId, Handle)>,
    creeps: Seq<(CreepId, Creep)>,
    k: int,
)
    requires
        0 <= k < creeps.len(),
    ensures
        ({
            let (id, creep) = creeps[k];
            let at = creep_position(m, creep);
            let shown = creeps_shown(m, mirrors, creeps, creeps.len() as int);
            let new = creeps_new(m, mirrors, creeps, creeps.len() as int);
            &&& shown.len() + new.len() == creeps.len()
            &&& holds(mirrors, id) ==> exists|i: int|
                0 <= i < shown.len() && (#[trigger] shown[i]).mirror == value_of(mirrors, id) && shown[i].hp.hp == creep.hp
                    && shown[i].hp.max == creep.max_hp && shown[i].vis.x == at.x && shown[i].vis.y == at.y
            &&& !holds(mirrors, id) ==> exists|i: int|
                0 <= i < new.len() && (#[trigger] new[i]).id == id && new[i].hp.hp == creep.hp && new[i].hp.max
                    == creep.max_hp && new[i].vis.x == at.x && new[i].vis.y == at.y
        }),
{
    lemma_shown_creep(m, mirrors, creeps, creeps.len() as int, k);
}

proof fn lemma_shown_creep(m: MapView, mirrors: Seq<(CreepId, Handle)>, creeps: Seq<(CreepId, Creep)>, n: int, k: int)
    requires
        0 <= n <= creeps.len(),
        0 <= k,
    ensures
        ({
            let (id, creep) = creeps[k];
            let at = creep_position(m, creep);
            let shown = creeps_shown(m, mirrors, creeps, n);
            let new = creeps_new(m, mirrors, creeps, n);
            &&& shown.len() + new.len() == n
            &&& k < n && holds(mirrors, id) ==> exists|i: int|
                0 <= i < shown.len() && (#[trigger] shown[i]).mirror == value_of(mirrors, id) && shown[i].hp.hp == creep.hp
                    && shown[i].hp.max == creep.max_hp && shown[i].vis.x == at.x && shown[i].vis.y == at.y
            &&& k < n && !holds(mirrors, id) ==> exists|i: int|
                0 <= i < new.len() && (#[trigger] new[i]).id == id && new[i].hp.hp == creep.hp && new[i].hp.max
                    == creep.max_hp && new[i].vis.x == at.x && new[i].vis.y == at.y
        }),
    decreases n,
{
    if n > 0 {
        lemma_shown_creep(m, mirrors, creeps, n - 1, k);
        let (id, creep) = creeps[k];
        let at = creep_position(m, creep);
        let shown = creeps_shown(m, mirrors, creeps, n);
        let new = creeps_new(m, mirrors, creeps, n);
        let old_shown = creeps_shown(m, mirrors, creeps, n - 1);
        let old_new = creeps_new(m, mirrors, creeps, n - 1);
        if k == n - 1 {
            if holds(mirrors, id) {
                assert(shown[shown.len() - 1].mirror == value_of(mirrors, id));
            } else {
                assert(new[new.len() - 1].id == id);
            }
        } else if k < n - 1 {
            if holds(mirrors, id) {
                let i = choose|i: int|
                    0 <= i < old_shown.len() && (#[trigger] old_shown[i]).mirror == value_of(mirrors, id)
                        && old_shown[i].hp.hp == creep.hp && old_shown[i].hp.max == creep.max_hp && old_shown[i].vis.x
                        == at.x && old_shown[i].vis.y == at.y;
                assert(shown[i] == old_shown[i]);
            } else {
                let i = choose|i: int|
                    0 <= i < old_new.len() && (#[trigger] old_new[i]).id == id && old_new[i].hp.hp == creep.hp
                        && old_new[i].hp.max == creep.max_hp && old_new[i].vis.x == at.x && old_new[i].vis.y == at.y;
                assert(new[i] == old_new[i]);
            }
        }
    }
}

/// Every tower is shown as it is: on its cell, of its kind and at its level,
/// whether its mirror is there already or new.
pub proof fn law_a_tower_is_shown_as_it_is(mirrors: Seq<(IVec2, Handle)>, towers: Seq<(IVec2, Tower)>, k: int)
    requires
        0 <= k < towers.len(),
    ensures
        ({
            let (cell, tower) = towers[k];
            let shown = towers_shown(mirrors, towers, towers.len() as int);
            let new = towers_new(mirrors, towers, towers.len() as int);
            &&& shown.len() + new.len() == towers.len()
            &&& holds(mirrors, cell) ==> exists|i: int|
                0 <= i < shown.len() && (#[trigger] shown[i]).mirror == value_of(mirrors, cell) && shown[i].at.x == cell.x
                    && shown[i].at.y == cell.y && shown[i].vis.kind == tower.kind && shown[i].vis.level == tower.level
            &&& !holds(mirrors, cell) ==> exists|i: int|
                0 <= i < new.len() && (#[trigger] new[i]).cell == cell && new[i].at.x == cell.x && new[i].at.y == cell.y
                    && new[i].vis.kind == tower.kind && new[i].vis.level == tower.level
        }),
{
    lemma_shown_tower(mirrors, towers, towers.len() as int, k);
}

proof fn lemma_shown_tower(mirrors: Seq<(IVec2, Handle)>, towers: Seq<(IVec2, Tower)>, n: int, k: int)
    requires
        0 <= n <= towers.len(),
        0 <= k,
    ensures
        ({
            let (cell, tower) = towers[k];
            let shown = towers_shown(mirrors, towers, n);
            let new = towers_new(mirrors, towers, n);
            &&& shown.len() + new.len() == n
            &&& k < n && holds(mirrors, cell) ==> exists|i: int|
                0 <= i < shown.len() && (#[trigger] shown[i]).mirror == value_of(mirrors, cell) && shown[i].at.x == cell.x
                    && shown[i].at.y == cell.y && shown[i].vis.kind == tower.kind && shown[i].vis.level == tower.level
            &&& k < n && !holds(mirrors, cell) ==> exists|i: int|
                0 <= i < new.len() && (#[trigger] new[i]).cell == cell && new[i].at.x == cell.x && new[i].at.y == cell.y
                    && new[i].vis.kind == tower.kind && new[i].vis.level == tower.level
        }),
    decreases n,
{
    if n > 0 {
        lemma_shown_tower(mirrors, towers, n - 1, k);
        let (cell, tower) = towers[k];
        let shown = towers_shown(mirrors, towers, n);
        let new = towers_new(mirrors, towers, n);
        let old_shown = towers_shown(mirrors, towers, n - 1);
        let old_new = towers_new(mirrors, towers, n - 1);
        if k == n - 1 {
            if holds(mirrors, cell) {
                assert(shown[shown.len() - 1].mirror == value_of(mirrors, cell));
            } else {
                assert(new[new.len() - 1].cell == cell);
            }
        } else if k < n - 1 {
            if holds(mirrors, cell) {
                let i = choose|i: int|
                    0 <= i < old_shown.len() && (#[trigger] old_shown[i]).mirror == value_of(mirrors, cell)
                        && old_shown[i].at.x == cell.x && old_shown[i].at.y == cell.y && old_shown[i].vis.kind == tower.kind
                        && old_shown[i].vis.level == tower.level;
                assert(shown[i] == old_shown[i]);
            } else {
                let i = choose|i: int|
                    0 <= i < old_new.len() && (#[trigger] old_new[i]).cell == cell && old_new[i].at.x == cell.x
                        && old_new[i].at.y == cell.y && old_new[i].vis.kind == tower.kind && old_new[i].vis.level
                        == tower.level;
                assert(new[i] == old_new[i]);
            }
        }
    }
}

/// A mirror goes with what it mirrors: the mirror of something that is still there
/// is kept, that of something gone is taken down, and no other is either.
pub proof fn law_a_mirror_goes_with_what_it_shows<K, V>(mirrors: Seq<(K, Handle)>, live: Seq<(K, V)>, i: int)
    requires
        0 <= i < mirrors.len(),
    ensures
        (exists|j: int| 0 <= j < live.len() && (#[trigger] live[j]).0 == mirrors[i].0) ==> kept_mirrors(mirrors, live).contains(
            mirrors[i],
        ),
        !(exists|j: int| 0 <= j < live.len() && (#[trigger] live[j]).0 == mirrors[i].0) ==> {
            &&& gone_mirrors(mirrors, live).contains(mirrors[i].1)
            &&& !kept_mirrors(mirrors, live).contains(mirrors[i])
        },
        kept_mirrors(mirrors, live).len() + gone_mirrors(mirrors, live).len() == mirrors.len(),
{
    let stay = |e: (K, Handle)| holds(live, e.0);
    let go = |e: (K, Handle)| !holds(live, e.0);
    let key = mirrors[i].0;
    lemma_place(live, key);
    if holds(live, key) {
        assert(live[place_of(live, key)].0 == key);
        mirrors.lemma_filter_contains(stay, i);
    } else {
        mirrors.lemma_filter_contains(go, i);
        let left = mirrors.filter(go);
        let p = choose|p: int| 0 <= p < left.len() && left[p] == mirrors[i];
        assert(gone_mirrors(mirrors, live)[p] == mirrors[i].1);
        if kept_mirrors(mirrors, live).contains(mirrors[i]) {
            let q = choose|q: int| 0 <= q < kept_mirrors(mirrors, live).len() && kept_mirrors(mirrors, live)[q] == mirrors[i];
            crate::sim::laws::lemma_filter_holds(mirrors, stay, q);
        }
        assert forall|j: int| 0 <= j < live.len() implies (#[trigger] live[j]).0 != key by {}
    }
    lemma_split_in_two(mirrors, live);
}

proof fn lemma_split_in_two<K, V>(mirrors: Seq<(K, Handle)>, live: Seq<(K, V)>)
    ensures
        kept_mirrors(mirrors, live).len() + gone_mirrors(mirrors, live).len() == mirrors.len(),
    decreases mirrors.len(),
{
    reveal(Seq::filter);
    if mirrors.len() > 0 {
        lemma_split_in_two(mirrors.drop_last(), live);
    }
}

/// Every wave that starts is told to everyone, in the order they start, and
/// nothing else of a tick is.
pub proof fn law_every_wave_is_told(events: Seq<SimEvent>)
    ensures
        broadcast_of(events, events.len() as int) == events.filter(|e: SimEvent| e is WaveStarted).map_values(
            |e: SimEvent| ServerNotice::WaveStarted(e->WaveStarted_0),
        ),
    decreases events.len(),
{
    reveal(Seq::filter);
    let waves = |e: SimEvent| e is WaveStarted;
    let told = |e: SimEvent| ServerNotice::WaveStarted(e->WaveStarted_0);
    if events.len() > 0 {
        let front = events.drop_last();
        law_every_wave_is_told(front);
        lemma_broadcast_so_far(events, front, front.len() as int);
        assert(broadcast_of(events, events.len() as int) =~= events.filter(waves).map_values(told));
    } else {
        assert(broadcast_of(events, 0) =~= events.filter(waves).map_values(told));
    }
}

proof fn lemma_broadcast_so_far(a: Seq<SimEvent>, b: Seq<SimEvent>, n: int)
    requires
        n <= a.len(),
        n <= b.len(),
        forall|i: int| 0 <= i < n ==> a[i] == b[i],
    ensures
        broadcast_of(a, n) == broadcast_of(b, n),
    decreases n,
{
    if n > 0 {
        lemma_broadcast_so_far(a, b, n - 1);
    }
}

/// What a defeat is told with is the wave it came in, the lives left and the leaks
/// counted; and what a player is shown of their purse is their gold and kills.
pub proof fn law_what_is_told_is_so(n: NetView, v: SimView, player: Player)
    requires
        v.over,
        !n.announced_over,
        0 <= v.wave <= u32::MAX,
        0 <= v.lives <= u32::MAX,
        0 <= v.leaks <= u32::MAX,
    ensures
        end_notice(n, v) matches Some(notice) && notice is GameOver && notice->wave == v.wave && notice->lives == v.lives
            && notice->leaks == v.leaks,
        purse(player).gold == player.gold,
        purse(player).kills == player.kills,
{
}

/// What a view shows once it was brought up to date is what it should show, and a
/// view that shows it already is not written.
pub proof fn law_a_view_is_written_when_it_changed<T>(have: T, want: T)
    ensures
        (match change_to(have, want) {
            Some(new) => new,
            None => have,
        }) == want,
        have == want ==> change_to(have, want) is None,
{
}

/// What is left of a grace after some frames.
pub open spec fn grace_after(grace: u8, frames: nat) -> Option<u8>
    decreases frames,
{
    if frames == 0 {
        Some(grace)
    } else {
        match grace_after(grace, (frames - 1) as nat) {
            Some(left) => aged(left),
            None => None,
        }
    }
}

/// A refused peer is kept for as many frames as its grace has, so that it hears why,
/// and is dropped in the frame after.
pub proof fn law_a_refused_peer_hears_why(grace: u8, frames: nat)
    ensures
        grace_after(grace, frames) is Some <==> frames <= grace,
        grace_after(grace, frames) matches Some(left) ==> left == grace - frames,
        REFUSAL_GRACE_FRAMES >= 1,
    decreases frames,
{
    if frames > 0 {
        law_a_refused_peer_hears_why(grace, (frames - 1) as nat);
    }
}

/// A host reads its own view and nobody else's; whoever is no host, or has its view
/// already, is given none.
pub proof fn law_a_host_reads_its_own_view(n: NetView, mode: Mode, marked: bool, id: PlayerId, i: int)
    requires
        kept_well(n),
        0 <= i < n.views.len(),
        n.views[i].0 == PlayerKey(id.0),
    ensures
        mode == Mode::Host && !marked ==> hosts_own(n, mode, marked, id) == Some(n.views[i].1),
        mode != Mode::Host || marked ==> hosts_own(n, mode, marked, id) is None,
{
    crate::table::lemma_place_is(n.views, i);
}

} // verus!
