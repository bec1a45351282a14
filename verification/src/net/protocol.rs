//! What two peers must agree on before either treats the other as a player.
//!
//! The rules are data, and a client built from different data would show numbers
//! that lie. So the peers exchange a [`ProtocolVersion`] first, and a mismatch
//! ends the connection with a reason that names the parts that differed: each
//! has a different fix, and a player deserves to be told which one they need.

use crate::text::{decimal, hex, hexadecimal, number};
use vstd::prelude::*;

verus! {

/// The wire-format revision this build speaks.
///
/// Bump it by hand when the *shape* of the protocol changes: a message added,
/// removed or reordered, a replicated component added or removed, a channel's
/// mode changed.
pub const SCHEMA_REVISION: u32 = 4;

/// What a peer speaks, exchanged before it is admitted.
#[derive(Clone, Copy, PartialEq, Eq, Debug, Structural)]
pub struct ProtocolVersion {
    /// The wire-format revision.
    pub schema: u32,
    /// The hash of the balance tables this peer loaded.
    pub balance_hash: u64,
    /// The hash of the board this peer loaded. The board is rules, not
    /// decoration: it decides where creeps enter, how long their walk is and
    /// where the goal is.
    pub map_hash: u64,
}

/// The words for revisions that differ.
pub open spec fn schema_part(ours: u32, theirs: u32) -> Seq<char> {
    "schema revision (server "@ + decimal(ours as nat) + ", client "@ + decimal(theirs as nat) + ")"@
}

/// The words for hashes that differ.
pub open spec fn hash_part(what: Seq<char>, ours: u64, theirs: u64) -> Seq<char> {
    what + " (server "@ + hexadecimal(ours as nat, 16) + ", client "@ + hexadecimal(theirs as nat, 16) + ")"@
}

/// A list of words, with one more part behind a semicolon.
pub open spec fn with_part(list: Seq<char>, part: Seq<char>) -> Seq<char> {
    if list.len() == 0 {
        part
    } else {
        list + "; "@ + part
    }
}

/// Everything two versions disagree about, in words; empty where they agree.
pub open spec fn differences(ours: ProtocolVersion, theirs: ProtocolVersion) -> Seq<char> {
    let schema = if ours.schema != theirs.schema {
        schema_part(ours.schema, theirs.schema)
    } else {
        Seq::empty()
    };
    let balance = if ours.balance_hash != theirs.balance_hash {
        with_part(schema, hash_part("balance data"@, ours.balance_hash, theirs.balance_hash))
    } else {
        schema
    };
    if ours.map_hash != theirs.map_hash {
        with_part(balance, hash_part("map data"@, ours.map_hash, theirs.map_hash))
    } else {
        balance
    }
}

/// What a player reads of a version.
pub open spec fn version_text(v: ProtocolVersion) -> Seq<char> {
    "v"@ + decimal(v.schema as nat) + " (balance "@ + hexadecimal(v.balance_hash as nat, 16) + ")"@
}

/// The words for hashes that differ.
fn name_hashes(what: &str, ours: u64, theirs: u64) -> (r: String)
    ensures
        r@ == hash_part(what@, ours, theirs),
{
    let mut r = what.to_owned();
    r.append(" (server ");
    r.append(hex(ours, 16).as_str());
    r.append(", client ");
    r.append(hex(theirs, 16).as_str());
    r.append(")");
    r
}

/// Put one more part behind a list.
fn add_part(list: &mut String, empty: bool, part: String)
    requires
        empty == (old(list)@.len() == 0),
    ensures
        final(list)@ == with_part(old(list)@, part@),
{
    if empty {
        *list = part;
    } else {
        list.append("; ");
        list.append(part.as_str());
    }
}

proof fn lemma_parts_say_something(ours: ProtocolVersion, theirs: ProtocolVersion)
    ensures
        schema_part(ours.schema, theirs.schema).len() > 0,
        hash_part("balance data"@, ours.balance_hash, theirs.balance_hash).len() > 0,
        hash_part("map data"@, ours.map_hash, theirs.map_hash).len() > 0,
{
    reveal_strlit(")");
}

impl ProtocolVersion {
    /// The version of *this* process, from the hashes of the tables and the
    /// board it loaded.
    pub fn current(balance_hash: u64, map_hash: u64) -> (v: ProtocolVersion)
        ensures
            v == (ProtocolVersion { schema: SCHEMA_REVISION, balance_hash, map_hash }),
    {
        ProtocolVersion { schema: SCHEMA_REVISION, balance_hash, map_hash }
    }

    /// Nothing when two peers agree, otherwise a player-readable reason naming
    /// every part that differed.
    pub fn disagreement(&self, peer: &ProtocolVersion) -> (r: Option<String>)
        ensures
            (r is None) == (*self == *peer),
            r matches Some(reason) ==> reason@ == differences(*self, *peer),
    {
        proof {
            lemma_parts_say_something(*self, *peer);
        }
        let mut list = String::new();
        let mut empty = true;
        assert(list@ =~= Seq::<char>::empty());
        if self.schema != peer.schema {
            list = "schema revision (server ".to_owned();
            list.append(number(self.schema as u64).as_str());
            list.append(", client ");
            list.append(number(peer.schema as u64).as_str());
            list.append(")");
            empty = false;
        }
        if self.balance_hash != peer.balance_hash {
            add_part(&mut list, empty, name_hashes("balance data", self.balance_hash, peer.balance_hash));
            empty = false;
        }
        if self.map_hash != peer.map_hash {
            add_part(&mut list, empty, name_hashes("map data", self.map_hash, peer.map_hash));
            empty = false;
        }
        if empty {
            None
        } else {
            Some(list)
        }
    }

    /// What a player reads of the version.
    pub fn text(&self) -> (text: String)
        ensures
            text@ == version_text(*self),
    {
        let mut text = "v".to_owned();
        text.append(number(self.schema as u64).as_str());
        text.append(" (balance ");
        text.append(hex(self.balance_hash, 16).as_str());
        text.append(")");
        text
    }
}

/// Peers agree exactly when they speak the same version, and then neither has
/// anything to say about the other.
pub proof fn law_agreement_is_mutual(ours: ProtocolVersion, theirs: ProtocolVersion)
    ensures
        differences(ours, theirs).len() == 0 <==> ours == theirs,
        differences(ours, theirs).len() == 0 <==> differences(theirs, ours).len() == 0,
{
    lemma_parts_say_something(ours, theirs);
    lemma_parts_say_something(theirs, ours);
}

/// Every part that differs is named, with what either side has, and a part that
/// does not differ is not: the reason for one difference is that difference alone.
pub proof fn law_every_difference_is_named(ours: ProtocolVersion, theirs: ProtocolVersion)
    ensures
        ({
            let all = differences(ours, theirs);
            let schema = schema_part(ours.schema, theirs.schema);
            let balance = hash_part("balance data"@, ours.balance_hash, theirs.balance_hash);
            let map = hash_part("map data"@, ours.map_hash, theirs.map_hash);
            let s = ours.schema != theirs.schema;
            let b = ours.balance_hash != theirs.balance_hash;
            let m = ours.map_hash != theirs.map_hash;
            &&& s ==> exists|i: int|
                0 <= i && i + schema.len() <= all.len() && #[trigger] all.subrange(i, (i + schema.len()) as int) == schema
            &&& b ==> exists|i: int|
                0 <= i && i + balance.len() <= all.len() && #[trigger] all.subrange(i, (i + balance.len()) as int) == balance
            &&& m ==> exists|i: int|
                0 <= i && i + map.len() <= all.len() && #[trigger] all.subrange(i, (i + map.len()) as int) == map
            &&& s && !b && !m ==> all == schema
            &&& !s && b && !m ==> all == balance
            &&& !s && !b && m ==> all == map
        }),
{
    lemma_parts_say_something(ours, theirs);
    let all = differences(ours, theirs);
    let schema = schema_part(ours.schema, theirs.schema);
    let balance = hash_part("balance data"@, ours.balance_hash, theirs.balance_hash);
    let map = hash_part("map data"@, ours.map_hash, theirs.map_hash);
    let s = ours.schema != theirs.schema;
    let b = ours.balance_hash != theirs.balance_hash;
    let m = ours.map_hash != theirs.map_hash;
    let first = if s { schema } else { Seq::empty() };
    let second = if b { with_part(first, balance) } else { first };
    if s {
        assert(all.subrange(0, (0 + schema.len()) as int) =~= schema);
    }
    if b {
        let at = second.len() - balance.len();
        assert(all.subrange(at, (at + balance.len()) as int) =~= balance);
    }
    if m {
        let at = all.len() - map.len();
        assert(all.subrange(at, (at + map.len()) as int) =~= map);
    }
}

/// A version reads as its revision and its tables, whole.
pub proof fn law_a_version_reads_as_it_is(a: ProtocolVersion, b: ProtocolVersion)
    ensures
        version_text(a) == version_text(b) && a.schema == b.schema ==> hexadecimal(a.balance_hash as nat, 16)
            == hexadecimal(b.balance_hash as nat, 16),
        decimal(a.schema as nat).len() < version_text(a).len(),
        version_text(a).subrange(1, 1 + decimal(a.schema as nat).len() as int) == decimal(a.schema as nat),
{
    reveal_strlit("v");
    reveal_strlit(" (balance ");
    reveal_strlit(")");
    let schema = decimal(a.schema as nat);
    let text = version_text(a);
    assert(text.subrange(1, 1 + schema.len() as int) =~= schema);
    if version_text(a) == version_text(b) && a.schema == b.schema {
        let from = 1 + schema.len() as int + 10;
        let other = version_text(b);
        assert(text.subrange(from, text.len() - 1) =~= hexadecimal(a.balance_hash as nat, 16));
        assert(other.subrange(from, other.len() - 1) =~= hexadecimal(b.balance_hash as nat, 16));
    }
}

} // verus!
