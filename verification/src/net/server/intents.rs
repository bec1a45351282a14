//! Intents: what a peer may afford in a frame, and what comes of each command.

use crate::data::balance::{spent, BalanceView};
use crate::data::reject::Reject;
use crate::map::MapView;
use crate::net::messages::{ClientCmd, ServerNotice};
use crate::net::server::{full_budget, kept_well, lemma_set_budget, net_joined, net_left, Handle, Net, NetView};
use crate::order::{at_most, lemma_one, less, one, zero};
use crate::ratelimit::{after, law_time_earns_tokens, TokenBucket};
use crate::scalar::{
    difference, from_whole, lemma_minus_one_is_exact, lemma_value_orders, lemma_whole_is_exact, lemma_whole_part_of_whole,
    magnitude, unit, whole_part, Scalar,
};
use crate::sim::economy::{built, raise_has_room, raised, sale_has_room, sold};
use crate::sim::waves::called;
use crate::sim::{PlayerKey, Sim, SimView};
use crate::table::{holds, lemma_dropping, lemma_place, lemma_setting, setting, value_of};
use crate::vector::IVec2;
use vstd::arithmetic::div_mod::{lemma_fundamental_div_mod, lemma_fundamental_div_mod_converse, lemma_mod_bound};
use vstd::arithmetic::power2::lemma_pow2_pos;
use vstd::prelude::*;

verus! {

// ---------------------------------------------------------------------------
// Budgets
// ---------------------------------------------------------------------------

/// How many of `n` commands a budget of this many tokens affords, one token
/// each.
pub open spec fn affordable(held: Scalar, n: nat) -> nat
    decreases n,
{
    if n == 0 || !at_most(one(), held) {
        0
    } else {
        1 + affordable(difference(held, one()), (n - 1) as nat)
    }
}

/// The tokens left after as many of `n` commands as are affordable.
pub open spec fn tokens_left(held: Scalar, n: nat) -> Scalar
    decreases n,
{
    if n == 0 || !at_most(one(), held) {
        held
    } else {
        tokens_left(difference(held, one()), (n - 1) as nat)
    }
}

/// Spend a budget on `n` commands, as far as it goes. A command that finds the
/// bucket empty is dropped, and so is every one behind it.
pub fn spend(bucket: &mut TokenBucket, n: usize) -> (admitted: usize)
    requires
        old(bucket).wf(),
    ensures
        final(bucket).wf(),
        admitted == affordable(old(bucket).held(), n as nat),
        admitted <= n,
        final(bucket).held() == tokens_left(old(bucket).held(), n as nat),
        final(bucket).most() == old(bucket).most(),
        final(bucket).rate() == old(bucket).rate(),
{
    let ghost start = bucket.held();
    let mut admitted: usize = 0;
    let mut i: usize = 0;
    let mut open = true;
    while i < n && open
        invariant
            bucket.wf(),
            bucket.most() == old(bucket).most(),
            bucket.rate() == old(bucket).rate(),
            start == old(bucket).held(),
            admitted == i <= n,
            affordable(start, n as nat) == i + affordable(bucket.held(), (n - i) as nat),
            tokens_left(start, n as nat) == tokens_left(bucket.held(), (n - i) as nat),
            !open ==> !at_most(one(), bucket.held()),
        decreases n - i + (if open { 1int } else { 0 }),
    {
        if bucket.try_consume() {
            admitted = admitted + 1;
            i = i + 1;
        } else {
            open = false;
        }
    }
    admitted
}

// ---------------------------------------------------------------------------
// Commands
// ---------------------------------------------------------------------------

/// What a command of a player comes to.
pub open spec fn ordered(b: BalanceView, m: MapView, v: SimView, who: PlayerKey, cmd: ClientCmd) -> Result<SimView, Reject> {
    match cmd {
        ClientCmd::Build { x, y, kind } => built(b, m, v, who, IVec2 { x, y }, kind),
        ClientCmd::Upgrade { x, y } => raised(b, v, who, IVec2 { x, y }),
        ClientCmd::Sell { x, y } => sold(b, v, who, IVec2 { x, y }),
        ClientCmd::CallWave => called(b, v, who),
    }
}

/// The match has room for what a command comes to.
pub open spec fn order_has_room(b: BalanceView, v: SimView, who: PlayerKey, cmd: ClientCmd) -> bool {
    match cmd {
        ClientCmd::Upgrade { x, y } => raise_has_room(b, v, who, IVec2 { x, y }),
        ClientCmd::Sell { x, y } => sale_has_room(b, v, who, IVec2 { x, y }),
        _ => true,
    }
}

/// The state after a command: a refused one changes nothing.
pub open spec fn after_order(b: BalanceView, m: MapView, v: SimView, who: PlayerKey, cmd: ClientCmd) -> SimView {
    match ordered(b, m, v, who, cmd) {
        Ok(w) => w,
        Err(_) => v,
    }
}

/// What the player is told of a command.
pub open spec fn answer(b: BalanceView, m: MapView, v: SimView, who: PlayerKey, cmd: ClientCmd) -> ServerNotice {
    match ordered(b, m, v, who, cmd) {
        Ok(_) => ServerNotice::Done,
        Err(reject) => ServerNotice::Refused(reject),
    }
}

/// The state after the first `n` commands of a player.
pub open spec fn after_orders(b: BalanceView, m: MapView, v: SimView, who: PlayerKey, cmds: Seq<ClientCmd>, n: int) -> SimView
    decreases n,
{
    if n <= 0 {
        v
    } else {
        after_order(b, m, after_orders(b, m, v, who, cmds, n - 1), who, cmds[n - 1])
    }
}

/// What the player is told of the first `n` commands.
pub open spec fn answers(b: BalanceView, m: MapView, v: SimView, who: PlayerKey, cmds: Seq<ClientCmd>, n: int) -> Seq<
    ServerNotice,
>
    decreases n,
{
    if n <= 0 {
        Seq::empty()
    } else {
        answers(b, m, v, who, cmds, n - 1).push(answer(b, m, after_orders(b, m, v, who, cmds, n - 1), who, cmds[n - 1]))
    }
}

/// The match has room for the first `n` commands.
pub open spec fn orders_have_room(
    b: BalanceView,
    m: MapView,
    v: SimView,
    who: PlayerKey,
    cmds: Seq<ClientCmd>,
    n: int,
) -> bool
    decreases n,
{
    n <= 0 || (orders_have_room(b, m, v, who, cmds, n - 1) && order_has_room(
        b,
        after_orders(b, m, v, who, cmds, n - 1),
        who,
        cmds[n - 1],
    ))
}

/// Carry one command out, or report that the match has no room for it.
pub fn obey(sim: &mut Sim, who: PlayerKey, cmd: ClientCmd) -> (r: Option<ServerNotice>)
    requires
        old(sim).wf(),
    ensures
        final(sim).wf(),
        final(sim).balance == old(sim).balance,
        final(sim).map == old(sim).map,
        (r is Some) == order_has_room(old(sim).balance@, old(sim)@, who, cmd),
        r is None ==> final(sim)@ == old(sim)@,
        r matches Some(notice) ==> {
            &&& final(sim)@ == after_order(old(sim).balance@, old(sim).map@, old(sim)@, who, cmd)
            &&& notice == answer(old(sim).balance@, old(sim).map@, old(sim)@, who, cmd)
        },
{
    let outcome = match cmd {
        ClientCmd::Build { x, y, kind } => sim.try_build(who, IVec2 { x, y }, kind),
        ClientCmd::Upgrade { x, y } => {
            if !sim.upgrade_fits(who, IVec2 { x, y }) {
                return None;
            }
            sim.try_upgrade(who, IVec2 { x, y })
        },
        ClientCmd::Sell { x, y } => {
            if !sim.sale_fits(who, IVec2 { x, y }) {
                return None;
            }
            sim.try_sell(who, IVec2 { x, y })
        },
        ClientCmd::CallWave => sim.call_wave(who),
    };
    match outcome {
        Ok(_) => Some(ServerNotice::Done),
        Err(reject) => Some(ServerNotice::Refused(reject)),
    }
}

// ---------------------------------------------------------------------------
// A frame
// ---------------------------------------------------------------------------

/// The budget of a player at the start of a frame of this length.
pub open spec fn budget_at(held: Scalar, bucket: TokenBucket, frame: Scalar) -> Scalar {
    after(held, bucket.rate(), bucket.most(), frame)
}

/// What a player is told of a frame's commands: an answer to each that was
/// afforded, and one refusal for all that were not.
pub open spec fn frame_answers(
    b: BalanceView,
    m: MapView,
    v: SimView,
    who: PlayerKey,
    cmds: Seq<ClientCmd>,
    afforded: int,
) -> Seq<ServerNotice> {
    let told = answers(b, m, v, who, cmds, afforded);
    if afforded < cmds.len() {
        told.push(ServerNotice::Refused(Reject::RateLimited))
    } else {
        told
    }
}

/// The bookkeeping after a player's budget was spent from.
pub open spec fn net_spent(n: NetView, key: PlayerKey, bucket: TokenBucket) -> NetView {
    NetView { buckets: setting(n.buckets, key, bucket), ..n }
}

/// A budget after a frame of this length and this many commands.
pub open spec fn spent_in_frame(before: TokenBucket, frame: Scalar, n: nat, bucket: TokenBucket) -> bool {
    &&& bucket.wf()
    &&& bucket.held() == tokens_left(budget_at(before.held(), before, frame), n)
    &&& bucket.most() == before.most()
    &&& bucket.rate() == before.rate()
}

/// A player's commands are carried out: they are linked to a connection.
pub open spec fn may_act(n: NetView, key: PlayerKey) -> bool {
    holds(n.links, key)
}

impl Net {
    /// Serve one player's commands of one frame: the ones their budget affords
    /// are carried out and answered, in order; the others are dropped rather than
    /// deferred, and the player hears about it exactly once.
    ///
    /// A command from a peer that is not in the match is dropped without
    /// execution, and without an answer. Nothing comes back where the match has
    /// no room for a command.
    pub fn serve(
        &mut self,
        sim: &mut Sim,
        key: PlayerKey,
        cmds: &Vec<ClientCmd>,
        frame: Scalar,
        burst: u32,
        per_second: Scalar,
    ) -> (r: Option<Vec<ServerNotice>>)
        requires
            old(self).wf(),
            old(sim).wf(),
        ensures
            final(self).wf(),
            final(sim).wf(),
            final(sim).balance == old(sim).balance,
            final(sim).map == old(sim).map,
            !may_act(old(self)@, key) ==> {
                &&& r matches Some(notices) && notices@ == Seq::<ServerNotice>::empty()
                &&& final(self)@ == old(self)@
                &&& final(sim)@ == old(sim)@
            },
            may_act(old(self)@, key) ==> exists|before: TokenBucket, bucket: TokenBucket|
                #![trigger spent_in_frame(before, frame, cmds@.len(), bucket)]
                {
                    let afforded = affordable(budget_at(before.held(), before, frame), cmds@.len()) as int;
                    let b = old(sim).balance@;
                    let m = old(sim).map@;
                    &&& holds(old(self)@.buckets, key) ==> before == value_of(old(self)@.buckets, key)
                    &&& !holds(old(self)@.buckets, key) ==> full_budget(before, burst, per_second)
                    &&& spent_in_frame(before, frame, cmds@.len(), bucket)
                    &&& final(self)@ == net_spent(old(self)@, key, bucket)
                    &&& (r is Some) == orders_have_room(b, m, old(sim)@, key, cmds@, afforded)
                    &&& r matches Some(notices) ==> {
                        &&& final(sim)@ == after_orders(b, m, old(sim)@, key, cmds@, afforded)
                        &&& notices@ == frame_answers(b, m, old(sim)@, key, cmds@, afforded)
                    }
                },
    {
        let mut notices: Vec<ServerNotice> = Vec::new();
        if !self.links.contains_key(&key) {
            return Some(notices);
        }
        let ghost n = self@;
        let ghost b = sim.balance@;
        let ghost m = sim.map@;
        let ghost v = sim@;
        let mut bucket = match self.buckets.get(&key) {
            Some(bucket) => {
                proof {
                    lemma_place(n.buckets, key);
                }
                bucket
            },
            None => TokenBucket::new(burst, per_second),
        };
        let ghost before = bucket;
        bucket.refill(frame);
        let afforded: usize = spend(&mut bucket, cmds.len());
        self.buckets.insert(key, bucket);
        proof {
            assert(self@ =~= net_spent(n, key, bucket));
            lemma_set_budget(n.buckets, key, bucket);
            assert(spent_in_frame(before, frame, cmds@.len(), bucket));
        }
        let mut i: usize = 0;
        while i < afforded
            invariant
                i <= afforded <= cmds@.len(),
                sim.wf(),
                sim.balance == old(sim).balance,
                sim.map == old(sim).map,
                b == sim.balance@,
                m == sim.map@,
                sim@ == after_orders(b, m, v, key, cmds@, i as int),
                notices@ == answers(b, m, v, key, cmds@, i as int),
                orders_have_room(b, m, v, key, cmds@, i as int),
                afforded == affordable(budget_at(before.held(), before, frame), cmds@.len()),
                holds(n.links, key),
                n == old(self)@,
                v == old(sim)@,
                holds(n.buckets, key) ==> before == value_of(n.buckets, key),
                !holds(n.buckets, key) ==> full_budget(before, burst, per_second),
                spent_in_frame(before, frame, cmds@.len(), bucket),
                self@ == net_spent(n, key, bucket),
                self.wf(),
            decreases afforded - i,
        {
            match obey(sim, key, cmds[i]) {
                Some(notice) => {
                    notices.push(notice);
                },
                None => {
                    proof {
                        lemma_no_room(b, m, v, key, cmds@, i + 1, afforded as int);
                    }
                    return None;
                },
            }
            i = i + 1;
        }
        if afforded < cmds.len() {
            // One refusal per frame, however many commands were dropped, so a
            // peer that floods cannot make the server flood back.
            notices.push(ServerNotice::Refused(Reject::RateLimited));
        }
        Some(notices)
    }
}

proof fn lemma_no_room(b: BalanceView, m: MapView, v: SimView, who: PlayerKey, cmds: Seq<ClientCmd>, n: int, end: int)
    requires
        0 < n <= end,
        !orders_have_room(b, m, v, who, cmds, n),
    ensures
        !orders_have_room(b, m, v, who, cmds, end),
    decreases end - n,
{
    if n < end {
        lemma_no_room(b, m, v, who, cmds, n + 1, end);
    }
}

/// Every command that was afforded is answered once, and all the others by one
/// refusal: a peer that floods is told so once a frame.
pub proof fn law_a_flood_is_answered_once(
    b: BalanceView,
    m: MapView,
    v: SimView,
    who: PlayerKey,
    cmds: Seq<ClientCmd>,
    afforded: int,
)
    requires
        0 <= afforded <= cmds.len(),
    ensures
        frame_answers(b, m, v, who, cmds, afforded).len() == afforded + (if afforded < cmds.len() {
            1int
        } else {
            0
        }),
        afforded < cmds.len() ==> frame_answers(b, m, v, who, cmds, afforded).last() == ServerNotice::Refused(
            Reject::RateLimited,
        ),
    decreases afforded,
{
    if afforded > 0 {
        lemma_answers(b, m, v, who, cmds, afforded);
    }
}

proof fn lemma_answers(b: BalanceView, m: MapView, v: SimView, who: PlayerKey, cmds: Seq<ClientCmd>, n: int)
    requires
        0 <= n,
    ensures
        answers(b, m, v, who, cmds, n).len() == n,
    decreases n,
{
    if n > 0 {
        lemma_answers(b, m, v, who, cmds, n - 1);
    }
}

/// A budget never affords more commands than were sent, and what it affords of
/// fewer commands it affords of more.
pub proof fn law_a_budget_affords_a_prefix(held: Scalar, fewer: nat, more: nat)
    requires
        fewer <= more,
    ensures
        affordable(held, more) <= more,
        affordable(held, fewer) == (if affordable(held, more) < fewer {
            affordable(held, more)
        } else {
            fewer
        }),
    decreases more,
{
    if more > 0 && at_most(one(), held) {
        if fewer > 0 {
            law_a_budget_affords_a_prefix(difference(held, one()), (fewer - 1) as nat, (more - 1) as nat);
        } else {
            law_a_budget_affords_a_prefix(difference(held, one()), 0, (more - 1) as nat);
        }
    }
}

/// A budget affords as many commands as it holds whole tokens, and no more, and
/// each takes one token off it. Budgets of more than 24 binary digits are left
/// out, because single precision cannot count them down by one.
pub proof fn law_a_budget_affords_its_whole_tokens(held: Scalar, n: nat)
    requires
        held.finite(),
        at_most(zero(), held),
        less(held, from_whole(0x100_0000)),
    ensures
        affordable(held, n) == (if n < whole_part(held) {
            n as int
        } else {
            whole_part(held)
        }),
        tokens_left(held, n).finite(),
        tokens_left(held, n).value() == held.value() - affordable(held, n) * unit(),
    decreases n,
{
    lemma_one();
    lemma_pow2_pos(149);
    lemma_whole_is_exact(0x100_0000);
    lemma_value_orders(held, from_whole(0x100_0000));
    lemma_value_orders(zero(), held);
    lemma_value_orders(one(), held);
    assert(magnitude(0) == 0);
    let value = held.value();
    let u = unit();
    lemma_whole_of(held);
    assert(0 * u == 0) by (nonlinear_arith);
    if value < u {
        lemma_fundamental_div_mod_converse(value, u, 0, value);
    } else {
        let rest = difference(held, one());
        lemma_minus_one_is_exact(held);
        lemma_value_orders(zero(), rest);
        lemma_value_orders(rest, from_whole(0x100_0000));
        lemma_fundamental_div_mod(value, u);
        lemma_mod_bound(value, u);
        let whole = value / u;
        assert(value - u == (whole - 1) * u + value % u) by (nonlinear_arith)
            requires
                value == u * whole + value % u,
        ;
        lemma_fundamental_div_mod_converse(value - u, u, whole - 1, value % u);
        assert(whole >= 1) by (nonlinear_arith)
            requires
                value == u * whole + value % u,
                0 <= value % u < u,
                value >= u,
                u > 0,
        ;
        if n > 0 {
            law_a_budget_affords_its_whole_tokens(rest, (n - 1) as nat);
            lemma_whole_of(rest);
            let k = affordable(rest, (n - 1) as nat) as int;
            assert((1 + k) * u == u + k * u) by (nonlinear_arith);
        }
    }
}

/// The whole part of what is not negative, and small, is its value in units.
proof fn lemma_whole_of(a: Scalar)
    requires
        a.finite(),
        0 <= a.value() < 0x100_0000 * unit(),
    ensures
        whole_part(a) == a.value() / unit(),
{
    reveal(whole_part);
    lemma_pow2_pos(149);
    let value = a.value();
    let u = unit();
    assert(0 * u == 0) by (nonlinear_arith);
    lemma_fundamental_div_mod_converse(0, u, 0, 0);
    assert(magnitude(0) == 0);
    lemma_value_orders(zero(), a);
    assert(value / u < 0x100_0000) by (nonlinear_arith)
        requires
            0 <= value < 0x100_0000 * u,
            u > 0,
    ;
}

/// A command does what it says, to the cell it names, for whoever sent it: it is
/// answered with success exactly when it went through, and a refused one changes
/// nothing and is answered with its reason.
pub proof fn law_a_command_does_what_it_says(
    b: BalanceView,
    m: MapView,
    v: SimView,
    who: PlayerKey,
    x: i32,
    y: i32,
    kind: u8,
    cmd: ClientCmd,
)
    requires
        cmd == (ClientCmd::Build { x, y, kind }) || cmd == (ClientCmd::Upgrade { x, y }) || cmd == (ClientCmd::Sell { x, y })
            || cmd == ClientCmd::CallWave,
    ensures
        ({
            let cell = IVec2 { x, y };
            let outcome = if cmd is Build {
                built(b, m, v, who, cell, kind)
            } else if cmd is Upgrade {
                raised(b, v, who, cell)
            } else if cmd is Sell {
                sold(b, v, who, cell)
            } else {
                called(b, v, who)
            };
            let told = answer(b, m, v, who, cmd);
            let w = after_order(b, m, v, who, cmd);
            &&& outcome is Ok ==> told == ServerNotice::Done && w == outcome->Ok_0
            &&& outcome is Err ==> told == ServerNotice::Refused(outcome->Err_0) && w == v
        }),
{
}

/// A player's commands are carried out one after another, each on what the ones
/// before it left, and each is answered in its turn.
pub proof fn law_commands_are_answered_in_turn(
    b: BalanceView,
    m: MapView,
    v: SimView,
    who: PlayerKey,
    cmds: Seq<ClientCmd>,
    n: int,
    i: int,
)
    requires
        0 <= i < n <= cmds.len(),
    ensures
        answers(b, m, v, who, cmds, n).len() == n,
        ({
            let before = after_orders(b, m, v, who, cmds, i);
            let after = after_orders(b, m, v, who, cmds, i + 1);
            let told = answers(b, m, v, who, cmds, n)[i];
            match ordered(b, m, before, who, cmds[i]) {
                Ok(w) => told == ServerNotice::Done && after == w,
                Err(reject) => told == ServerNotice::Refused(reject) && after == before,
            }
        }),
        after_orders(b, m, v, who, cmds, 0) == v,
    decreases n,
{
    lemma_answers(b, m, v, who, cmds, n);
    lemma_answers(b, m, v, who, cmds, n - 1);
    if i < n - 1 {
        law_commands_are_answered_in_turn(b, m, v, who, cmds, n - 1, i);
    }
}

/// A frame earns before it spends: a budget that earns a whole number of tokens a
/// second starts a frame of whole seconds with that many more for each, up to its
/// burst.
pub proof fn law_a_frame_earns_before_it_spends(bucket: TokenBucket, held: int, rate: int, most: int, seconds: int)
    requires
        bucket.held() == from_whole(held),
        bucket.rate() == from_whole(rate),
        bucket.most() == from_whole(most),
        0 <= held <= most <= 0x100_0000,
        0 <= rate <= 0x100_0000,
        1 <= seconds <= 0x100_0000,
        held + rate * seconds <= 0x100_0000,
    ensures
        budget_at(bucket.held(), bucket, from_whole(seconds)) == from_whole(
            if held + rate * seconds < most {
                held + rate * seconds
            } else {
                most
            },
        ),
{
    law_time_earns_tokens(held, rate, most, seconds);
}

/// What a frame's commands cost is taken off the budget it started with, one token
/// for each that was carried out, and the rest is kept; the budget's size and rate
/// stay.
pub proof fn law_a_frame_pays_for_what_it_ran(before: TokenBucket, frame: Scalar, n: nat, bucket: TokenBucket)
    requires
        spent_in_frame(before, frame, n, bucket),
        budget_at(before.held(), before, frame).finite(),
        at_most(zero(), budget_at(before.held(), before, frame)),
        less(budget_at(before.held(), before, frame), from_whole(0x100_0000)),
    ensures
        ({
            let budget = budget_at(before.held(), before, frame);
            bucket.held().value() == budget.value() - affordable(budget, n) * unit()
        }),
        bucket.most() == before.most(),
        bucket.rate() == before.rate(),
{
    law_a_budget_affords_its_whole_tokens(budget_at(before.held(), before, frame), n);
}

/// A fresh budget affords its burst at once, and no more; a burst of nothing still
/// affords one.
pub proof fn law_a_fresh_budget_affords_its_burst(bucket: TokenBucket, burst: u32, per_second: Scalar, n: nat)
    requires
        full_budget(bucket, burst, per_second),
        burst < 0x100_0000,
    ensures
        ({
            let most = if burst == 0 { 1 } else { burst as int };
            affordable(bucket.held(), n) == (if n < most { n as int } else { most })
        }),
{
    let most = if burst == 0 { 1 } else { burst as int };
    lemma_whole_is_exact(most);
    lemma_whole_is_exact(0x100_0000);
    lemma_pow2_pos(149);
    assert(0 <= most * unit() < 0x100_0000 * unit()) by (nonlinear_arith)
        requires
            0 <= most < 0x100_0000,
            unit() > 0,
    ;
    lemma_value_orders(from_whole(most), from_whole(0x100_0000));
    lemma_value_orders(zero(), from_whole(most));
    assert(magnitude(0) == 0);
    law_a_budget_affords_its_whole_tokens(bucket.held(), n);
    lemma_whole_part_of_whole(most);
}

/// There is room for every command that is refused, for every build and every call,
/// for every upgrade short of the last level, and for every sale whose refund can be
/// counted and fits in the seller's purse.
pub proof fn law_a_match_has_room_for_commands(b: BalanceView, v: SimView, who: PlayerKey, x: i32, y: i32, kind: u8)
    ensures
        order_has_room(b, v, who, ClientCmd::Build { x, y, kind }),
        order_has_room(b, v, who, ClientCmd::CallWave),
        ({
            let cell = IVec2 { x, y };
            let tower = value_of(v.towers, cell);
            let owed = spent(b.towers[tower.kind as int], tower.level) * b.match_rules.sell_refund_percent;
            &&& raised(b, v, who, cell) is Err || tower.level < u8::MAX <==> order_has_room(
                b,
                v,
                who,
                ClientCmd::Upgrade { x, y },
            )
            &&& sold(b, v, who, cell) is Err ==> order_has_room(b, v, who, ClientCmd::Sell { x, y })
            &&& 0 <= owed <= u64::MAX && owed / 100 <= u32::MAX && value_of(v.players, who).gold + owed / 100 <= u32::MAX
                ==> order_has_room(b, v, who, ClientCmd::Sell { x, y })
        }),
{
}

/// Only players act: whoever joined may, whoever left may not, and neither says
/// anything about anybody else.
pub proof fn law_only_players_act(
    n: NetView,
    key: PlayerKey,
    conn: Handle,
    view: Handle,
    bucket: TokenBucket,
    other: PlayerKey,
)
    requires
        kept_well(n),
        other != key,
    ensures
        may_act(net_joined(n, key, conn, view, bucket), key),
        !may_act(net_left(n, key), key),
        may_act(net_joined(n, key, conn, view, bucket), other) == may_act(n, other),
        may_act(net_left(n, key), other) == may_act(n, other),
        n.links.len() == 0 ==> !may_act(n, key),
{
    lemma_setting(n.links, key, conn, other);
    lemma_dropping(n.links, key, other);
    lemma_place(n.links, key);
}

} // verus!
