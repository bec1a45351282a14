//! What a client decides: who it is, when it states its version, and what it
//! makes of the answer.
//!
//! A client is not a player until it has said which protocol it speaks, and a
//! host is no exception, even though it shares the server's world: that keeps one
//! admission rule rather than two.

use crate::config::{Config, Mode};
use crate::net::messages::{HandshakeAck, PlayerId};
use crate::net::server::Handle;
use crate::order::{less, zero};
use crate::scalar::{difference, Scalar};
use vstd::prelude::*;

verus! {

/// How this process's client half stands with the server.
///
/// Keeping the phase, rather than inferring it from what has arrived, is what
/// lets a connect screen say "connecting", "joining" or "refused".
#[derive(Clone, PartialEq, Eq, Debug)]
pub enum HandshakeStatus {
    /// The handshake is in flight, or the link is not up yet.
    Connecting,
    /// The server agreed on the version; this client is a player.
    Accepted,
    /// The server refused the client, and why.
    Refused(String),
}

/// How a client stands with the server, as a value.
pub ghost enum StatusView {
    Connecting,
    Accepted,
    Refused(Seq<char>),
}

impl View for HandshakeStatus {
    type V = StatusView;

    open spec fn view(&self) -> StatusView {
        match *self {
            HandshakeStatus::Connecting => StatusView::Connecting,
            HandshakeStatus::Accepted => StatusView::Accepted,
            HandshakeStatus::Refused(reason) => StatusView::Refused(reason@),
        }
    }
}

impl Default for HandshakeStatus {
    fn default() -> (s: HandshakeStatus)
        ensures
            s@ == StatusView::Connecting,
    {
        HandshakeStatus::Connecting
    }
}

/// This process's player identity, settled once and stated on every connection
/// it makes: that is what makes a reconnect a reconnect.
#[derive(Clone, Copy, PartialEq, Eq, Debug, Structural)]
pub struct LocalIdentity(pub PlayerId);

impl LocalIdentity {
    /// This run's identity: the pinned one, or a fresh random one.
    pub fn from_config(config: &Config) -> (id: LocalIdentity)
        ensures
            match config.player_id {
                Some(pinned) => id.0.0 == pinned,
                None => id.0.0 != 0,
            },
    {
        match config.player_id {
            Some(id) => LocalIdentity(PlayerId(id)),
            None => LocalIdentity(PlayerId::generate()),
        }
    }
}

/// How long the client waits for an answer before stating its version again.
///
/// The first thing a client says may be heard by nobody, and then nobody can
/// acknowledge it either. So the statement is repeated until the server answers;
/// the server treats a repeat as nothing new.
#[verifier::allow_in_spec]
pub fn handshake_retry_secs() -> Scalar
    returns
        (Scalar { bits: 0x3E80_0000 }),
{
    Scalar { bits: 0x3E80_0000 }
}

/// What a client does in one frame of waiting.
#[derive(Clone, Copy, PartialEq, Eq, Debug, Structural)]
pub struct Knock {
    /// The clock that runs down to the next statement.
    pub clock: Option<Scalar>,
    /// The version is stated in this frame.
    pub states: bool,
    /// It has not been stated on this link before.
    pub first: bool,
}

/// What a client does in a frame of `dt`: it states its version when it has not
/// yet, and again whenever the clock runs out; a settled client says nothing.
pub open spec fn knocking(status: StatusView, clock: Option<Scalar>, dt: Scalar) -> Knock {
    if status != StatusView::Connecting {
        Knock { clock, states: false, first: false }
    } else {
        match clock {
            None => Knock { clock: Some(handshake_retry_secs()), states: true, first: true },
            Some(left) => {
                let now = difference(left, dt);
                if less(zero(), now) {
                    Knock { clock: Some(now), states: false, first: false }
                } else {
                    Knock { clock: Some(handshake_retry_secs()), states: true, first: false }
                }
            },
        }
    }
}

/// How a client stands once it was answered.
pub open spec fn settled_by(ack: HandshakeAck) -> StatusView {
    match ack {
        HandshakeAck::Accepted => StatusView::Accepted,
        HandshakeAck::Refused { reason } => StatusView::Refused(reason@),
    }
}

impl HandshakeStatus {
    /// Decide whether to state the version in this frame.
    pub fn knock(&self, clock: Option<Scalar>, dt: Scalar) -> (k: Knock)
        ensures
            k == knocking(self@, clock, dt),
    {
        if !matches!(self, HandshakeStatus::Connecting) {
            return Knock { clock, states: false, first: false };
        }
        match clock {
            None => Knock { clock: Some(handshake_retry_secs()), states: true, first: true },
            Some(left) => {
                let now = left.minus(dt);
                if now.gt(zero()) {
                    Knock { clock: Some(now), states: false, first: false }
                } else {
                    Knock { clock: Some(handshake_retry_secs()), states: true, first: false }
                }
            },
        }
    }

    /// Take the server's answer. True where the link is to be dropped: after a
    /// refusal the only thing left to do with it is to try another server.
    pub fn hear(&mut self, ack: HandshakeAck) -> (drop_link: bool)
        ensures
            final(self)@ == settled_by(ack),
            drop_link == (final(self)@ is Refused),
    {
        match ack {
            HandshakeAck::Accepted => {
                *self = HandshakeStatus::Accepted;
                false
            },
            HandshakeAck::Refused { reason } => {
                *self = HandshakeStatus::Refused(reason);
                true
            },
        }
    }
}

/// The view that is a remote client's own: the first it was sent. Nothing where one
/// is marked already, or where this process is a host.
pub open spec fn own_view(mode: Mode, marked: bool, first: Option<Handle>) -> Option<Handle> {
    if mode == Mode::Host || marked {
        None
    } else {
        first
    }
}

/// The view that is a *remote* client's own: it is sent exactly one. A host holds
/// every player's view and does not guess here.
pub fn local_view(mode: Mode, marked: bool, first: Option<Handle>) -> (view: Option<Handle>)
    ensures
        view == own_view(mode, marked, first),
{
    if mode.is_host() || marked {
        None
    } else {
        first
    }
}

/// A client that is not answered goes on stating its version: in every frame in
/// which its clock runs out, and in the first one.
pub proof fn law_a_client_knocks_until_it_is_answered(clock: Option<Scalar>, dt: Scalar)
    ensures
        ({
            let k = knocking(StatusView::Connecting, clock, dt);
            &&& k.clock is Some
            &&& (clock is None || !less(zero(), difference(clock->0, dt))) ==> k.states && k.clock == Some(
                handshake_retry_secs(),
            )
        }),
        !knocking(StatusView::Accepted, clock, dt).states,
        forall|reason: Seq<char>| !(#[trigger] knocking(StatusView::Refused(reason), clock, dt)).states,
{
}

/// A client that has stated its version waits: while its clock has time left it
/// says nothing and the clock runs by the time that passes. Only the first
/// statement on a link is the first, and a settled client leaves the clock alone.
pub proof fn law_a_client_waits_its_turn(left: Scalar, clock: Option<Scalar>, dt: Scalar, status: StatusView)
    ensures
        less(zero(), difference(left, dt)) ==> {
            let k = knocking(StatusView::Connecting, Some(left), dt);
            !k.states && k.clock == Some(difference(left, dt))
        },
        knocking(StatusView::Connecting, clock, dt).first == (clock is None),
        status != StatusView::Connecting ==> {
            let k = knocking(status, clock, dt);
            !k.states && !k.first && k.clock == clock
        },
{
}

/// An answer settles a client: it is accepted or refused as it was told, with the
/// reason it was told, and states its version no more.
pub proof fn law_an_answer_settles_a_client(ack: HandshakeAck, clock: Option<Scalar>, dt: Scalar)
    ensures
        ack is Accepted <==> settled_by(ack) is Accepted,
        ack is Refused ==> settled_by(ack) == StatusView::Refused(ack->reason@),
        !knocking(settled_by(ack), clock, dt).states,
{
}

/// A remote client reads the view it was sent, once; a host is not given one so.
pub proof fn law_a_client_reads_the_view_it_was_sent(first: Handle)
    ensures
        own_view(Mode::Client, false, Some(first)) == Some(first),
        own_view(Mode::Client, true, Some(first)) is None,
        own_view(Mode::Host, false, Some(first)) is None,
        own_view(Mode::Client, false, None) is None,
{
}

} // verus!
