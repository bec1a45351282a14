//! What the server decides: who is admitted, which intents a peer may afford, and
//! what everybody is told.
//!
//! The sim has no idea it is on a network. Everything network-shaped that can be
//! decided without a socket is here.

use crate::data::balance::BalanceView;
use crate::data::components::PlayerView;
use crate::net::messages::{Handshake, PlayerId};
use crate::net::protocol::{differences, ProtocolVersion};
use crate::ratelimit::{earning_rate, TokenBucket};
use crate::scalar::{from_whole, Scalar};
use crate::sim::{joined, left, CreepId, PlayerKey, Sim};
use crate::table::{dropping, holds, lemma_dropping, lemma_place, lemma_place_is, lemma_setting, place_of, setting, unique, value_of, Table};
use crate::vector::IVec2;
use vstd::prelude::*;

pub mod intents;
pub mod mirror;

verus! {

// ---------------------------------------------------------------------------
// Who is who
// ---------------------------------------------------------------------------

/// A handle to something that lives outside the match: a connection, or what
/// mirrors a creep, a tower or a player. Two things never share one.
#[derive(Clone, Copy, PartialEq, Eq, Debug, Structural)]
pub struct Handle(pub u64);

/// The key of an identity: a player is who they say they are, wherever they say
/// it from.
pub fn player_key(id: PlayerId) -> (key: PlayerKey)
    ensures
        key == PlayerKey(id.0),
{
    PlayerKey(id.0)
}

/// What an identity comes to on a connection.
#[derive(Clone, Copy, PartialEq, Eq, Debug, Structural)]
pub enum Claim {
    /// Nobody holds the identity.
    Fresh(PlayerKey),
    /// This connection already holds it: a repeated handshake.
    AlreadyHeld(PlayerKey),
    /// Another connection holds it. The newest connection presenting an identity
    /// is the player, so that one makes way.
    Taken(PlayerKey),
}

/// What an identity comes to on a connection.
pub open spec fn claimed(id: PlayerId, conn: Handle, links: Seq<(PlayerKey, Handle)>) -> Claim {
    let key = PlayerKey(id.0);
    if !holds(links, key) {
        Claim::Fresh(key)
    } else if value_of(links, key) == conn {
        Claim::AlreadyHeld(key)
    } else {
        Claim::Taken(key)
    }
}

/// Look an identity up among the links.
pub fn claim(id: PlayerId, conn: Handle, links: &Table<PlayerKey, Handle>) -> (r: Claim)
    ensures
        r == claimed(id, conn, links@),
{
    let key = player_key(id);
    match links.get(&key) {
        None => Claim::Fresh(key),
        Some(held) => {
            if held.0 == conn.0 {
                Claim::AlreadyHeld(key)
            } else {
                Claim::Taken(key)
            }
        },
    }
}

// ---------------------------------------------------------------------------
// Bookkeeping
// ---------------------------------------------------------------------------

/// Bookkeeping the server needs to talk to clients. Not part of the sim.
pub struct Net {
    /// Player to their connection.
    pub links: Table<PlayerKey, Handle>,
    /// Player to their private view.
    pub views: Table<PlayerKey, Handle>,
    /// Player to their command budget. A peer that is not linked has none: it is
    /// not allowed to act at all.
    pub buckets: Table<PlayerKey, TokenBucket>,
    /// The single replicated match state.
    pub match_entity: Option<Handle>,
    /// Creep to its mirror.
    pub creeps: Table<CreepId, Handle>,
    /// Grid cell to the mirror of the tower on it.
    pub towers: Table<IVec2, Handle>,
    /// Set once the end has been announced.
    pub announced_over: bool,
}

/// The bookkeeping, as a value.
#[verifier::ext_equal]
pub ghost struct NetView {
    pub links: Seq<(PlayerKey, Handle)>,
    pub views: Seq<(PlayerKey, Handle)>,
    pub buckets: Seq<(PlayerKey, TokenBucket)>,
    pub match_entity: Option<Handle>,
    pub creeps: Seq<(CreepId, Handle)>,
    pub towers: Seq<(IVec2, Handle)>,
    pub announced_over: bool,
}

impl View for Net {
    type V = NetView;

    open spec fn view(&self) -> NetView {
        NetView {
            links: self.links@,
            views: self.views@,
            buckets: self.buckets@,
            match_entity: self.match_entity,
            creeps: self.creeps@,
            towers: self.towers@,
            announced_over: self.announced_over,
        }
    }
}

/// Every budget is one that can be spent from.
pub open spec fn budgets_good(buckets: Seq<(PlayerKey, TokenBucket)>) -> bool {
    forall|i: int| 0 <= i < buckets.len() ==> (#[trigger] buckets[i]).1.wf()
}

/// No connection holds two identities.
pub open spec fn one_identity_each(links: Seq<(PlayerKey, Handle)>) -> bool {
    forall|i: int, j: int| 0 <= i < j < links.len() ==> (#[trigger] links[i]).1 != (#[trigger] links[j]).1
}

/// Nothing is kept twice, and no connection is two players.
pub open spec fn kept_well(n: NetView) -> bool {
    &&& unique(n.links)
    &&& unique(n.views)
    &&& unique(n.buckets)
    &&& unique(n.creeps)
    &&& unique(n.towers)
    &&& budgets_good(n.buckets)
    &&& one_identity_each(n.links)
}

/// The bookkeeping of a server nobody has joined.
pub open spec fn empty_net() -> NetView {
    NetView {
        links: Seq::empty(),
        views: Seq::empty(),
        buckets: Seq::empty(),
        match_entity: None,
        creeps: Seq::empty(),
        towers: Seq::empty(),
        announced_over: false,
    }
}

/// The place of a connection among the links; their number where it has none.
pub open spec fn link_place(links: Seq<(PlayerKey, Handle)>, conn: Handle) -> int
    decreases links.len(),
{
    if links.len() == 0 || links[0].1 == conn {
        0
    } else {
        1 + link_place(links.drop_first(), conn)
    }
}

/// The connection is some player's.
pub open spec fn linked(links: Seq<(PlayerKey, Handle)>, conn: Handle) -> bool {
    link_place(links, conn) < links.len()
}

/// Whose connection it is.
pub open spec fn holder(links: Seq<(PlayerKey, Handle)>, conn: Handle) -> PlayerKey {
    links[link_place(links, conn)].0
}

proof fn lemma_link_place(links: Seq<(PlayerKey, Handle)>, conn: Handle)
    ensures
        0 <= link_place(links, conn) <= links.len(),
        linked(links, conn) ==> links[link_place(links, conn)].1 == conn,
        forall|i: int| 0 <= i < link_place(links, conn) ==> (#[trigger] links[i]).1 != conn,
    decreases links.len(),
{
    if links.len() > 0 && links[0].1 != conn {
        lemma_link_place(links.drop_first(), conn);
        assert forall|i: int| 0 <= i < link_place(links, conn) implies (#[trigger] links[i]).1 != conn by {
            if i > 0 {
                assert(links.drop_first()[i - 1] == links[i]);
            }
        }
    }
}

// ---------------------------------------------------------------------------
// Admission
// ---------------------------------------------------------------------------

/// What a handshake comes to.
#[derive(Clone, PartialEq, Eq, Debug)]
pub enum Admission {
    /// The connection is a player already: a peer may repeat its handshake, and a
    /// second one must not make a second player.
    Known(PlayerKey),
    /// The versions disagree.
    Refused { reason: String },
    /// The peer becomes this player, in place of the connection that was them
    /// before, if there is one.
    Joins { key: PlayerKey, replaces: Option<Handle> },
}

/// What a handshake comes to, as a value.
pub ghost enum AdmissionView {
    Known(PlayerKey),
    Refused(Seq<char>),
    Joins(PlayerKey, Option<Handle>),
}

impl View for Admission {
    type V = AdmissionView;

    open spec fn view(&self) -> AdmissionView {
        match *self {
            Admission::Known(key) => AdmissionView::Known(key),
            Admission::Refused { reason } => AdmissionView::Refused(reason@),
            Admission::Joins { key, replaces } => AdmissionView::Joins(key, replaces),
        }
    }
}

/// What a handshake on a connection comes to.
pub open spec fn admission(
    links: Seq<(PlayerKey, Handle)>,
    version: ProtocolVersion,
    conn: Handle,
    handshake: Handshake,
) -> AdmissionView {
    let key = PlayerKey(handshake.id.0);
    if linked(links, conn) {
        AdmissionView::Known(holder(links, conn))
    } else if version != handshake.version {
        AdmissionView::Refused(differences(version, handshake.version))
    } else if holds(links, key) {
        AdmissionView::Joins(key, Some(value_of(links, key)))
    } else {
        AdmissionView::Joins(key, None)
    }
}

/// The bookkeeping after a player joined on a connection, with a fresh full
/// budget, so a rejoin is not punished for an earlier burst.
pub open spec fn net_joined(n: NetView, key: PlayerKey, conn: Handle, view: Handle, bucket: TokenBucket) -> NetView {
    NetView {
        links: setting(n.links, key, conn),
        views: setting(n.views, key, view),
        buckets: setting(n.buckets, key, bucket),
        ..n
    }
}

/// A full budget of this size and rate.
pub open spec fn full_budget(bucket: TokenBucket, burst: u32, per_second: Scalar) -> bool {
    &&& bucket.wf()
    &&& bucket.most() == from_whole(if burst == 0 { 1 } else { burst as int })
    &&& bucket.held() == bucket.most()
    &&& bucket.rate() == earning_rate(per_second)
}

/// The bookkeeping after a player's connection went.
pub open spec fn net_left(n: NetView, key: PlayerKey) -> NetView {
    NetView {
        links: dropping(n.links, key),
        views: dropping(n.views, key),
        buckets: dropping(n.buckets, key),
        ..n
    }
}

/// What a player's view shows at first.
pub open spec fn first_shown(b: BalanceView) -> PlayerView {
    PlayerView { gold: b.match_rules.start_gold, kills: 0 }
}

/// The view that stands for a player, if one does.
pub open spec fn view_held(n: NetView, key: PlayerKey) -> Option<Handle> {
    if holds(n.views, key) {
        Some(value_of(n.views, key))
    } else {
        None
    }
}

/// What a join leaves to do.
#[derive(Clone, Copy, PartialEq, Eq, Debug, Structural)]
pub struct Joined {
    /// What the player's view shows at first.
    pub view: PlayerView,
    /// The view that stood for the player before, and goes.
    pub stale: Option<Handle>,
}

impl Net {
    /// Nothing is kept twice, and no connection is two players.
    pub open spec fn wf(&self) -> bool {
        kept_well(self@)
    }

    /// The bookkeeping of a server nobody has joined.
    pub fn new() -> (net: Net)
        ensures
            net.wf(),
            net@ == empty_net(),
    {
        let net = Net {
            links: Table::new(),
            views: Table::new(),
            buckets: Table::new(),
            match_entity: None,
            creeps: Table::new(),
            towers: Table::new(),
            announced_over: false,
        };
        assert(net@ =~= empty_net());
        net
    }

    /// Whose connection it is, if anybody's.
    pub fn player_of(&self, conn: Handle) -> (key: Option<PlayerKey>)
        ensures
            key == (if linked(self@.links, conn) {
                Some(holder(self@.links, conn))
            } else {
                None
            }),
    {
        let ghost links = self.links@;
        let mut i: usize = 0;
        assert(links.subrange(0, links.len() as int) =~= links);
        while i < self.links.len()
            invariant
                links == self.links@,
                i <= links.len(),
                link_place(links, conn) == i + link_place(links.subrange(i as int, links.len() as int), conn),
            decreases links.len() - i,
        {
            let (key, held) = self.links.entry(i);
            let ghost rest = links.subrange(i as int, links.len() as int);
            assert(rest[0] == links[i as int]);
            if held.0 == conn.0 {
                return Some(key);
            }
            assert(rest.drop_first() =~= links.subrange(i + 1, links.len() as int));
            i = i + 1;
        }
        None
    }

    /// Decide what a handshake comes to.
    ///
    /// A version is checked before anything is made of the peer, so a refusal
    /// leaves nothing to undo.
    pub fn greet(&self, version: &ProtocolVersion, conn: Handle, handshake: &Handshake) -> (r: Admission)
        ensures
            r@ == admission(self@.links, *version, conn, *handshake),
    {
        if let Some(key) = self.player_of(conn) {
            return Admission::Known(key);
        }
        if let Some(reason) = version.disagreement(&handshake.version) {
            return Admission::Refused { reason };
        }
        proof {
            lemma_link_place(self@.links, conn);
            lemma_place(self@.links, PlayerKey(handshake.id.0));
            if holds(self@.links, PlayerKey(handshake.id.0)) && value_of(self@.links, PlayerKey(handshake.id.0)) == conn {
                lemma_linked(self@.links, place_of(self@.links, PlayerKey(handshake.id.0)));
            }
        }
        match claim(handshake.id, conn, &self.links) {
            Claim::Fresh(key) => Admission::Joins { key, replaces: None },
            Claim::AlreadyHeld(key) => Admission::Known(key),
            Claim::Taken(key) => Admission::Joins { key, replaces: self.links.get(&key) },
        }
    }

    /// Everything that turns a verified peer into a player in the match.
    pub fn join(
        &mut self,
        sim: &mut Sim,
        key: PlayerKey,
        conn: Handle,
        view: Handle,
        burst: u32,
        per_second: Scalar,
    ) -> (r: Joined)
        requires
            old(self).wf(),
            old(sim).wf(),
            !linked(old(self)@.links, conn),
        ensures
            final(self).wf(),
            final(sim).wf(),
            final(sim).balance == old(sim).balance,
            final(sim).map == old(sim).map,
            final(sim)@ == joined(old(sim).balance@, old(sim)@, key),
            exists|bucket: TokenBucket|
                full_budget(bucket, burst, per_second) && final(self)@ == #[trigger] net_joined(
                    old(self)@,
                    key,
                    conn,
                    view,
                    bucket,
                ),
            r.view == first_shown(old(sim).balance@),
            r.stale == view_held(old(self)@, key),
    {
        let ghost before = self@;
        let stale = self.views.get(&key);
        let gold: u32 = sim.balance.match_rules.start_gold;
        let bucket = TokenBucket::new(burst, per_second);
        self.links.insert(key, conn);
        self.views.insert(key, view);
        self.buckets.insert(key, bucket);
        sim.add_player(key);
        proof {
            assert(self@ =~= net_joined(before, key, conn, view, bucket));
            lemma_set_budget(before.buckets, key, bucket);
            lemma_link_place(before.links, conn);
            lemma_new_link(before.links, key, conn);
        }
        Joined { view: PlayerView { gold, kills: 0 }, stale }
    }

    /// A connection went. Whose it was leaves the match (their towers remain),
    /// and their view goes.
    pub fn leave(&mut self, sim: &mut Sim, conn: Handle) -> (r: Option<(PlayerKey, Option<Handle>)>)
        requires
            old(self).wf(),
            old(sim).wf(),
        ensures
            final(self).wf(),
            final(sim).wf(),
            final(sim).balance == old(sim).balance,
            final(sim).map == old(sim).map,
            !linked(old(self)@.links, conn) ==> r is None && final(self)@ == old(self)@ && final(sim)@ == old(sim)@,
            linked(old(self)@.links, conn) ==> {
                let key = holder(old(self)@.links, conn);
                &&& final(self)@ == net_left(old(self)@, key)
                &&& final(sim)@ == left(old(sim)@, key)
                &&& r == Some((key, view_held(old(self)@, key)))
            },
    {
        let ghost before = self@;
        match self.player_of(conn) {
            None => None,
            Some(key) => {
                let view = self.views.get(&key);
                self.links.remove(&key);
                self.views.remove(&key);
                self.buckets.remove(&key);
                sim.remove_player(key);
                proof {
                    assert(self@ =~= net_left(before, key));
                    lemma_drop_budget(before.buckets, key);
                    lemma_drop_link(before.links, key);
                }
                Some((key, view))
            },
        }
    }
}

proof fn lemma_linked(links: Seq<(PlayerKey, Handle)>, i: int)
    requires
        0 <= i < links.len(),
    ensures
        linked(links, links[i].1),
{
    lemma_link_place(links, links[i].1);
}

pub(crate) proof fn lemma_set_budget(buckets: Seq<(PlayerKey, TokenBucket)>, key: PlayerKey, bucket: TokenBucket)
    requires
        budgets_good(buckets),
        bucket.wf(),
    ensures
        budgets_good(setting(buckets, key, bucket)),
{
    lemma_place(buckets, key);
    let after = setting(buckets, key, bucket);
    assert forall|i: int| 0 <= i < after.len() implies (#[trigger] after[i]).1.wf() by {
        if after[i] != (key, bucket) {
            assert(after[i] == buckets[i]);
        }
    }
}

proof fn lemma_drop_budget(buckets: Seq<(PlayerKey, TokenBucket)>, key: PlayerKey)
    requires
        budgets_good(buckets),
    ensures
        budgets_good(dropping(buckets, key)),
{
    lemma_place(buckets, key);
    let after = dropping(buckets, key);
    let p = place_of(buckets, key);
    assert forall|i: int| 0 <= i < after.len() implies (#[trigger] after[i]).1.wf() by {
        if holds(buckets, key) && i >= p {
            assert(after[i] == buckets[i + 1]);
        } else {
            assert(after[i] == buckets[i]);
        }
    }
}

proof fn lemma_new_link(links: Seq<(PlayerKey, Handle)>, key: PlayerKey, conn: Handle)
    requires
        one_identity_each(links),
        !linked(links, conn),
    ensures
        one_identity_each(setting(links, key, conn)),
{
    lemma_place(links, key);
    lemma_link_place(links, conn);
    let after = setting(links, key, conn);
    assert forall|i: int, j: int| 0 <= i < j < after.len() implies (#[trigger] after[i]).1 != (#[trigger] after[j]).1 by {
        if i < links.len() && j < links.len() {
            assert(links[i].1 != links[j].1);
        }
        if i < links.len() {
            assert(links[i].1 != conn);
        }
        if j < links.len() {
            assert(links[j].1 != conn);
        }
    }
}

proof fn lemma_drop_link(links: Seq<(PlayerKey, Handle)>, key: PlayerKey)
    requires
        one_identity_each(links),
    ensures
        one_identity_each(dropping(links, key)),
{
    lemma_place(links, key);
    let after = dropping(links, key);
    let p = place_of(links, key);
    assert forall|i: int, j: int| 0 <= i < j < after.len() implies (#[trigger] after[i]).1 != (#[trigger] after[j]).1 by {
        let x = if holds(links, key) && i >= p { i + 1 } else { i };
        let y = if holds(links, key) && j >= p { j + 1 } else { j };
        assert(links[x].1 != links[y].1);
    }
}

// ---------------------------------------------------------------------------
// Laws
// ---------------------------------------------------------------------------

/// A peer that repeats its handshake is told nothing new: once it has joined it
/// is known, whatever it states.
pub proof fn law_a_repeat_is_no_second_player(
    n: NetView,
    key: PlayerKey,
    conn: Handle,
    view: Handle,
    bucket: TokenBucket,
    version: ProtocolVersion,
    handshake: Handshake,
)
    requires
        kept_well(n),
        !linked(n.links, conn),
    ensures
        admission(net_joined(n, key, conn, view, bucket).links, version, conn, handshake) == AdmissionView::Known(key),
{
    let links = setting(n.links, key, conn);
    lemma_place(n.links, key);
    lemma_link_place(n.links, conn);
    lemma_link_place(links, conn);
    let p = if holds(n.links, key) { place_of(n.links, key) } else { n.links.len() as int };
    assert(links[p] == (key, conn));
    let q = link_place(links, conn);
    if q < p {
        assert(links[q] == n.links[q]);
    }
}

/// The newest connection that presents an identity is the player: it joins under
/// the same key, the one before makes way and is nobody's afterwards, and there
/// are no more players than before.
pub proof fn law_the_newest_connection_is_the_player(
    n: NetView,
    conn: Handle,
    view: Handle,
    bucket: TokenBucket,
    version: ProtocolVersion,
    id: PlayerId,
)
    requires
        kept_well(n),
        !linked(n.links, conn),
        holds(n.links, PlayerKey(id.0)),
    ensures
        ({
            let key = PlayerKey(id.0);
            let old_conn = value_of(n.links, key);
            let after = net_joined(n, key, conn, view, bucket);
            &&& admission(n.links, version, conn, Handshake { version, id }) == AdmissionView::Joins(key, Some(old_conn))
            &&& value_of(after.links, key) == conn
            &&& !linked(after.links, old_conn)
            &&& after.links.len() == n.links.len()
        }),
{
    let key = PlayerKey(id.0);
    let old_conn = value_of(n.links, key);
    let links = setting(n.links, key, conn);
    lemma_place(n.links, key);
    lemma_setting(n.links, key, conn, key);
    lemma_link_place(n.links, conn);
    lemma_link_place(links, old_conn);
    let p = place_of(n.links, key);
    lemma_linked(n.links, p);
    if linked(links, old_conn) {
        let q = link_place(links, old_conn);
        if q != p {
            assert(links[q] == n.links[q]);
            if q < p {
                assert(n.links[q].1 != n.links[p].1);
            } else {
                assert(n.links[p].1 != n.links[q].1);
            }
        }
    }
}

/// Whoever left comes back as the same player, from whatever connection.
pub proof fn law_a_reconnect_is_the_same_player(
    n: NetView,
    gone: Handle,
    conn: Handle,
    version: ProtocolVersion,
)
    requires
        kept_well(n),
        linked(n.links, gone),
        !linked(n.links, conn),
    ensures
        ({
            let key = holder(n.links, gone);
            admission(net_left(n, key).links, version, conn, Handshake { version, id: PlayerId(key.0) })
                == AdmissionView::Joins(key, None)
        }),
{
    let key = holder(n.links, gone);
    lemma_link_place(n.links, gone);
    lemma_link_place(n.links, conn);
    let p = link_place(n.links, gone);
    lemma_place_is(n.links, p);
    let links = dropping(n.links, key);
    lemma_place(links, key);
    lemma_link_place(links, conn);
    if holds(links, key) {
        let q = place_of(links, key);
        let k = if q < p { q } else { q + 1 };
        assert(links[q] == n.links[k]);
        if k < p {
            assert(n.links[k].0 != n.links[p].0);
        } else {
            assert(n.links[p].0 != n.links[k].0);
        }
    }
    if linked(links, conn) {
        let q = link_place(links, conn);
        let k = if q < p { q } else { q + 1 };
        assert(links[q] == n.links[k]);
        lemma_linked(n.links, k);
    }
}

/// A new connection is let in exactly when its version is the server's own. It
/// joins as the player its identity names, in place of the connection that was
/// that player before, if there is one; with any other version it is refused and
/// told what differs.
pub proof fn law_a_peer_joins_under_its_own_identity(
    links: Seq<(PlayerKey, Handle)>,
    version: ProtocolVersion,
    conn: Handle,
    handshake: Handshake,
)
    requires
        unique(links),
        forall|i: int| 0 <= i < links.len() ==> (#[trigger] links[i]).1 != conn,
    ensures
        ({
            let r = admission(links, version, conn, handshake);
            let key = PlayerKey(handshake.id.0);
            &&& handshake.version != version ==> r == AdmissionView::Refused(differences(version, handshake.version))
            &&& handshake.version == version ==> {
                &&& r is Joins
                &&& r->Joins_0 == key
                &&& forall|i: int| 0 <= i < links.len() && (#[trigger] links[i]).0 == key ==> r->Joins_1 == Some(links[i].1)
                &&& (forall|i: int| 0 <= i < links.len() ==> (#[trigger] links[i]).0 != key) ==> r->Joins_1 is None
            }
        }),
{
    lemma_link_place(links, conn);
    if linked(links, conn) {
        let p = link_place(links, conn);
        assert(links[p].1 == conn);
    }
    let key = PlayerKey(handshake.id.0);
    lemma_place(links, key);
    assert forall|i: int| 0 <= i < links.len() && (#[trigger] links[i]).0 == key implies place_of(links, key) == i by {
        lemma_place_is(links, i);
    }
    if holds(links, key) {
        assert(links[place_of(links, key)].0 == key);
    }
}

/// A player who joined is reached over their new connection, is shown their new
/// view and has their new budget; nothing is kept differently for anybody else.
/// Once they left, nothing is kept for them, and still nothing has changed for
/// anybody else.
pub proof fn law_bookkeeping_is_per_player(
    n: NetView,
    key: PlayerKey,
    conn: Handle,
    view: Handle,
    bucket: TokenBucket,
    other: PlayerKey,
)
    requires
        kept_well(n),
        other != key,
    ensures
        ({
            let w = net_joined(n, key, conn, view, bucket);
            &&& holds(w.links, key) && value_of(w.links, key) == conn
            &&& holds(w.views, key) && value_of(w.views, key) == view
            &&& holds(w.buckets, key) && value_of(w.buckets, key) == bucket
            &&& holds(w.links, other) == holds(n.links, other)
            &&& holds(n.links, other) ==> value_of(w.links, other) == value_of(n.links, other)
            &&& holds(n.views, other) ==> holds(w.views, other) && value_of(w.views, other) == value_of(n.views, other)
            &&& holds(n.buckets, other) ==> holds(w.buckets, other) && value_of(w.buckets, other) == value_of(
                n.buckets,
                other,
            )
            &&& w == (NetView { links: w.links, views: w.views, buckets: w.buckets, ..n })
        }),
        ({
            let w = net_left(n, key);
            &&& !holds(w.links, key)
            &&& !holds(w.views, key)
            &&& !holds(w.buckets, key)
            &&& holds(n.links, other) ==> holds(w.links, other) && value_of(w.links, other) == value_of(n.links, other)
            &&& holds(n.views, other) ==> holds(w.views, other) && value_of(w.views, other) == value_of(n.views, other)
            &&& holds(n.buckets, other) ==> holds(w.buckets, other) && value_of(w.buckets, other) == value_of(
                n.buckets,
                other,
            )
            &&& w == (NetView { links: w.links, views: w.views, buckets: w.buckets, ..n })
        }),
{
    lemma_setting(n.links, key, conn, other);
    lemma_setting(n.views, key, view, other);
    lemma_setting(n.buckets, key, bucket, other);
    lemma_dropping(n.links, key, other);
    lemma_dropping(n.views, key, other);
    lemma_dropping(n.buckets, key, other);
}

/// An identity that nobody holds is free, one that this connection holds is its own,
/// and one that another connection holds is taken; it is the same player each time.
pub proof fn law_an_identity_is_claimed_once(id: PlayerId, conn: Handle, links: Seq<(PlayerKey, Handle)>, i: int)
    requires
        unique(links),
        0 <= i < links.len(),
        links[i].0 == PlayerKey(id.0),
    ensures
        links[i].1 == conn ==> claimed(id, conn, links) == Claim::AlreadyHeld(PlayerKey(id.0)),
        links[i].1 != conn ==> claimed(id, conn, links) == Claim::Taken(PlayerKey(id.0)),
        claimed(id, conn, dropping(links, PlayerKey(id.0))) == Claim::Fresh(PlayerKey(id.0)),
{
    lemma_place_is(links, i);
    lemma_dropping(links, PlayerKey(id.0), PlayerKey(id.0));
}

/// A connection is the player's under whose key it is linked, and nobody's where it
/// is linked under none.
pub proof fn law_a_connection_is_its_players(links: Seq<(PlayerKey, Handle)>, conn: Handle)
    requires
        one_identity_each(links),
    ensures
        linked(links, conn) <==> exists|i: int| 0 <= i < links.len() && (#[trigger] links[i]).1 == conn,
        forall|i: int| 0 <= i < links.len() && (#[trigger] links[i]).1 == conn ==> holder(links, conn) == links[i].0,
{
    lemma_link_place(links, conn);
    let p = link_place(links, conn);
    if linked(links, conn) {
        assert(links[p].1 == conn);
    }
    assert forall|i: int| 0 <= i < links.len() && (#[trigger] links[i]).1 == conn implies p == i by {
        lemma_linked(links, i);
        if p < i {
            assert(links[p].1 != links[i].1);
        }
    }
}

/// A newcomer is shown the gold they start with and no kills; the view that stood for
/// a player is the one they joined with, until they leave.
pub proof fn law_a_view_stands_for_its_player(
    b: BalanceView,
    n: NetView,
    key: PlayerKey,
    conn: Handle,
    view: Handle,
    bucket: TokenBucket,
    other: PlayerKey,
)
    requires
        kept_well(n),
        other != key,
    ensures
        first_shown(b).gold == b.match_rules.start_gold,
        first_shown(b).kills == 0,
        view_held(net_joined(n, key, conn, view, bucket), key) == Some(view),
        view_held(net_joined(n, key, conn, view, bucket), other) == view_held(n, other),
        view_held(net_left(n, key), key) is None,
        view_held(net_left(n, key), other) == view_held(n, other),
{
    lemma_setting(n.views, key, view, other);
    lemma_dropping(n.views, key, other);
}

} // verus!
