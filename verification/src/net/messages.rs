//! Messages: the two directions of the wire.
//!
//! The split is deliberate and absolute. A [`ClientCmd`] carries *intent* and
//! nothing else -- a cell, a kind -- and the server re-derives every consequence
//! of it. A [`ServerNotice`] carries *outcome*: what happened, or why it did
//! not. A client that sends state rather than intent is a client that can cheat.

use crate::data::reject::Reject;
use crate::net::protocol::ProtocolVersion;
use std::collections::hash_map::RandomState;
use std::hash::BuildHasher;
use vstd::prelude::*;

verus! {

/// A client-generated identity, stable for the life of the client process and
/// therefore across a reconnect from a new socket.
///
/// It is deliberately *not* an address. An address changes the moment a socket
/// is rebound, and the whole point of this type is that a player's gold, kills
/// and towers do not change with it.
///
/// There are no accounts, so the id lives in memory and is not persisted: a
/// fresh process is a fresh player.
#[derive(Clone, Copy, PartialEq, Eq, Hash, Debug, PartialOrd, Ord, Structural)]
pub struct PlayerId(pub u64);

/// `RandomState::new` of the standard library: a hasher's keys, seeded by the
/// operating system. Nothing is claimed of them.
pub assume_specification[ RandomState::new ]() -> (state: RandomState)
;

/// `BuildHasher::hash_one` of the standard library's [`RandomState`], on the
/// number zero. What comes back depends on the keys, so nothing is claimed of it.
#[verifier::external_body]
fn hash_of_zero(state: &RandomState) -> (bits: u64) {
    state.hash_one(0u64)
}

/// The identity that some bits of chance stand for: themselves, and one for none.
pub open spec fn identity_of(bits: u64) -> u64 {
    if bits == 0 {
        1
    } else {
        bits
    }
}

impl PlayerId {
    /// A fresh identity for this process.
    ///
    /// `RandomState` is the standard library's OS-seeded hasher, so two
    /// processes -- and two clients started on one machine -- almost surely
    /// differ. Which identity comes out rests on chance; that it stands for a
    /// player does not.
    pub fn generate() -> (id: PlayerId)
        ensures
            id.0 != 0,
    {
        PlayerId::from_bits(hash_of_zero(&RandomState::new()))
    }

    /// The identity that some bits of chance stand for.
    ///
    /// Zero is avoided because the sim reserves the key zero for "no player": it
    /// is what a creep nobody hit remembers, so a real player keyed zero would be
    /// credited with creeps nobody hit.
    pub fn from_bits(bits: u64) -> (id: PlayerId)
        ensures
            id.0 == identity_of(bits),
    {
        PlayerId(if bits == 0 { 1 } else { bits })
    }
}

/// Client to server, before anything else: which protocol it speaks and who it
/// is.
///
/// It carries no intent, so a server may act on it before the sender is a
/// player. A peer that never sends one is never admitted.
#[derive(Clone, Copy, PartialEq, Eq, Debug, Structural)]
pub struct Handshake {
    pub version: ProtocolVersion,
    /// Who the sender claims to be. The server keys the player on this, not on
    /// the sender's address.
    pub id: PlayerId,
}

/// Server to client: the answer to a [`Handshake`].
#[derive(Clone, PartialEq, Eq, Debug)]
pub enum HandshakeAck {
    /// The versions agree and the sender is now a player in the match.
    Accepted,
    /// The versions disagree, so the sender is not admitted. The reason names
    /// the part of the version that differed.
    Refused { reason: String },
}

/// Client to server intents. The client never mutates the world directly; it
/// only asks. The server decides.
#[derive(Clone, Copy, PartialEq, Eq, Debug, Structural)]
pub enum ClientCmd {
    /// Try to place a tower. `kind` indexes the tower table.
    Build { x: i32, y: i32, kind: u8 },
    Upgrade { x: i32, y: i32 },
    Sell { x: i32, y: i32 },
    /// Skip the rest of the wave timer.
    CallWave,
}

/// Server to client feedback.
#[derive(Clone, Copy, PartialEq, Eq, Debug, Structural)]
pub enum ServerNotice {
    /// The intent went through.
    Done,
    /// The intent was refused, and why.
    Refused(Reject),
    WaveStarted(u32),
    GameOver { wave: u32, lives: u32, leaks: u32 },
}

/// Reliable, ordered. Used for commands and notices.
#[derive(Clone, Copy, PartialEq, Eq, Debug)]
pub struct ReliableChannel;

/// Nobody is given the identity that stands for nobody, and chance that differs
/// gives different identities, all but the two that stand for one.
pub proof fn law_chance_tells_players_apart(a: u64, b: u64)
    ensures
        identity_of(a) != 0,
        a > 1 && a != b ==> identity_of(a) != identity_of(b),
{
}

} // verus!
