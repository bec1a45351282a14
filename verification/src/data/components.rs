//! The shape of replicated state, and where a match is in its life.

use crate::scalar::Scalar;
use vstd::prelude::*;

verus! {

/// A creep's world position. This is the only thing a client needs to draw it.
#[derive(Clone, Copy, PartialEq, Eq, Debug, Structural)]
pub struct CreepVis {
    pub x: Scalar,
    pub y: Scalar,
}

/// A creep's health, for the health bar.
#[derive(Clone, Copy, PartialEq, Eq, Debug, Structural)]
pub struct CreepHp {
    pub hp: Scalar,
    pub max: Scalar,
}

/// Which grid cell a tower occupies.
#[derive(Clone, Copy, PartialEq, Eq, Debug, Structural)]
pub struct TowerAt {
    pub x: i32,
    pub y: i32,
}

/// A tower's type and tier, for choosing the sprite and the label.
#[derive(Clone, Copy, PartialEq, Eq, Debug, Structural)]
pub struct TowerVis {
    pub kind: u8,
    pub level: u8,
}

/// Per-player view. Replicated to exactly one client.
#[derive(Clone, Copy, PartialEq, Eq, Debug, Structural)]
pub struct PlayerView {
    pub gold: u32,
    pub kills: u32,
}

/// Global match state. Replicated to everyone.
#[derive(Clone, Copy, PartialEq, Eq, Debug, Structural)]
pub struct MatchView {
    pub wave: u32,
    /// Live creeps on the map. Part of the lose condition.
    pub live_creeps: u32,
    pub overrun_cap: u32,
    pub creeps_per_wave: u32,
    /// Lives left.
    pub lives: u32,
    /// Creeps that reached the goal.
    pub leaks: u32,
    /// Connected players. The HUD reads the lobby size from here rather than
    /// counting the views it happens to hold.
    pub players: u32,
    /// A [`Phase`] as a byte, because that is what goes on the wire.
    pub phase: u8,
}

/// Where a match is in its life. Driven by the server from the sim, so the HUD
/// never has to guess from the wave number.
#[derive(Clone, Copy, PartialEq, Eq, Debug, Structural)]
pub enum Phase {
    Waiting,
    InMatch,
    Over,
}

/// The byte that stands for a phase on the wire.
pub open spec fn phase_byte(phase: Phase) -> u8 {
    match phase {
        Phase::Waiting => 0,
        Phase::InMatch => 1,
        Phase::Over => 2,
    }
}

/// The phase that a byte stands for. Unknown bytes read as waiting: a newer
/// server must not crash an older client.
pub open spec fn phase_of(value: u8) -> Phase {
    if value == 1 {
        Phase::InMatch
    } else if value == 2 {
        Phase::Over
    } else {
        Phase::Waiting
    }
}

/// What a player reads of a phase.
pub open spec fn phase_words(phase: Phase) -> Seq<char> {
    match phase {
        Phase::Waiting => "waiting"@,
        Phase::InMatch => "in match"@,
        Phase::Over => "over"@,
    }
}

impl Phase {
    /// The byte on the wire.
    pub fn as_u8(self) -> (value: u8)
        ensures
            value == phase_byte(self),
    {
        match self {
            Phase::Waiting => 0,
            Phase::InMatch => 1,
            Phase::Over => 2,
        }
    }

    /// The phase of a byte from the wire.
    pub fn from_u8(value: u8) -> (phase: Phase)
        ensures
            phase == phase_of(value),
    {
        match value {
            1 => Phase::InMatch,
            2 => Phase::Over,
            _ => Phase::Waiting,
        }
    }

    /// What a player reads.
    pub fn text(self) -> (text: &'static str)
        ensures
            text@ == phase_words(self),
    {
        match self {
            Phase::Waiting => "waiting",
            Phase::InMatch => "in match",
            Phase::Over => "over",
        }
    }
}

/// A phase survives the wire.
pub proof fn law_a_phase_survives_the_wire(phase: Phase)
    ensures
        phase_of(phase_byte(phase)) == phase,
{
}

/// Phases tell each other apart: on the wire, and to whoever reads them.
pub proof fn law_phases_tell_apart(a: Phase, b: Phase)
    requires
        a != b,
    ensures
        phase_byte(a) != phase_byte(b),
        phase_words(a) != phase_words(b),
{
    reveal_strlit("waiting");
    reveal_strlit("in match");
    reveal_strlit("over");
    assert(phase_words(Phase::Waiting).len() == 7);
    assert(phase_words(Phase::InMatch).len() == 8);
    assert(phase_words(Phase::Over).len() == 4);
}

/// A byte that stands for no phase reads as waiting.
pub proof fn law_an_unknown_phase_is_waiting(value: u8)
    requires
        value != phase_byte(Phase::InMatch),
        value != phase_byte(Phase::Over),
    ensures
        phase_of(value) == Phase::Waiting,
{
}

} // verus!
