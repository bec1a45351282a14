//! The stable log targets. Every log line names one of these.

use vstd::prelude::*;

verus! {

/// Sockets and connections: binding, listening, a peer arriving or leaving.
pub const NET: &'static str = "greentd::net";

/// The authoritative state machine: waves, the lose condition, sim events.
pub const SIM: &'static str = "greentd::sim";

/// The server's mirror: what was replicated, and to whom.
pub const REPLICATION: &'static str = "greentd::replication";

/// Client intents, and what the server did with them.
pub const COMMANDS: &'static str = "greentd::commands";

} // verus!
