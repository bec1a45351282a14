//! Why an intent was refused.
//!
//! [`Reject`] is shared vocabulary rather than transport: the sim *produces* it,
//! and a notice *carries* it back to the player. It is an expected refusal
//! inside a running match, with a reason the player can act on.

use vstd::prelude::*;

verus! {

/// A reason to refuse an intent.
#[derive(Clone, Copy, PartialEq, Eq, Debug, Structural)]
pub enum Reject {
    NotEnoughGold,
    Occupied,
    PathBlocked,
    OutOfBounds,
    BadKind,
    NoSuchTower,
    /// The caller does not own the tower it tried to upgrade or sell.
    NotOwner,
    /// The caller is issuing commands faster than the server will accept.
    RateLimited,
    /// The caller has no player record, so it is not in this match.
    NotInMatch,
    MatchOver,
}

/// What a player reads of a refusal.
pub open spec fn reason(reject: Reject) -> Seq<char> {
    match reject {
        Reject::NotEnoughGold => "not enough gold"@,
        Reject::Occupied => "cell occupied"@,
        Reject::PathBlocked => "cannot build on the path"@,
        Reject::OutOfBounds => "out of bounds"@,
        Reject::BadKind => "unknown tower type"@,
        Reject::NoSuchTower => "no tower there"@,
        Reject::NotOwner => "that tower is not yours"@,
        Reject::RateLimited => "too many commands"@,
        Reject::NotInMatch => "you are not in this match"@,
        Reject::MatchOver => "match is over"@,
    }
}

impl Reject {
    /// Every variant, each once.
    pub const ALL: [Reject; 10] = [
        Reject::NotEnoughGold,
        Reject::Occupied,
        Reject::PathBlocked,
        Reject::OutOfBounds,
        Reject::BadKind,
        Reject::NoSuchTower,
        Reject::NotOwner,
        Reject::RateLimited,
        Reject::NotInMatch,
        Reject::MatchOver,
    ];

    /// What a player reads of the refusal.
    pub fn text(self) -> (text: &'static str)
        ensures
            text@ == reason(self),
    {
        match self {
            Reject::NotEnoughGold => "not enough gold",
            Reject::Occupied => "cell occupied",
            Reject::PathBlocked => "cannot build on the path",
            Reject::OutOfBounds => "out of bounds",
            Reject::BadKind => "unknown tower type",
            Reject::NoSuchTower => "no tower there",
            Reject::NotOwner => "that tower is not yours",
            Reject::RateLimited => "too many commands",
            Reject::NotInMatch => "you are not in this match",
            Reject::MatchOver => "match is over",
        }
    }
}

/// No refusal is silent: every reason has words.
pub proof fn law_every_refusal_has_words(reject: Reject)
    ensures
        reason(reject).len() > 0,
{
    reveal_strlit("not enough gold");
    reveal_strlit("cell occupied");
    reveal_strlit("cannot build on the path");
    reveal_strlit("out of bounds");
    reveal_strlit("unknown tower type");
    reveal_strlit("no tower there");
    reveal_strlit("that tower is not yours");
    reveal_strlit("too many commands");
    reveal_strlit("you are not in this match");
    reveal_strlit("match is over");
}

/// Refusals tell each other apart: no two reasons read the same.
pub proof fn law_refusals_tell_apart(a: Reject, b: Reject)
    requires
        a != b,
    ensures
        reason(a) != reason(b),
{
    reveal_strlit("not enough gold");
    reveal_strlit("cell occupied");
    reveal_strlit("cannot build on the path");
    reveal_strlit("out of bounds");
    reveal_strlit("unknown tower type");
    reveal_strlit("no tower there");
    reveal_strlit("that tower is not yours");
    reveal_strlit("too many commands");
    reveal_strlit("you are not in this match");
    reveal_strlit("match is over");
    assert(reason(Reject::NotEnoughGold)[0] == 'n' && reason(Reject::NotEnoughGold).len() == 15);
    assert(reason(Reject::Occupied).len() == 13 && reason(Reject::Occupied)[0] == 'c');
    assert(reason(Reject::PathBlocked).len() == 24);
    assert(reason(Reject::OutOfBounds).len() == 13 && reason(Reject::OutOfBounds)[0] == 'o');
    assert(reason(Reject::BadKind).len() == 18);
    assert(reason(Reject::NoSuchTower).len() == 14);
    assert(reason(Reject::NotOwner).len() == 23);
    assert(reason(Reject::RateLimited).len() == 17);
    assert(reason(Reject::NotInMatch).len() == 25);
    assert(reason(Reject::MatchOver).len() == 13 && reason(Reject::MatchOver)[0] == 'm');
}

} // verus!
