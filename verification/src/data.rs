//! What client and server both are, without knowing how they talk.
//!
//! Everything in here is *shared*: the balance tables, the shape of replicated
//! state, and the vocabulary of a refusal. None of it knows about sockets,
//! replication or which side of the connection it is on.

pub mod balance;
pub mod components;
pub mod reject;
