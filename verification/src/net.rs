//! What the two peers say to each other, and what each decides on hearing it.
//!
//! How bytes travel is not decided here: this is what a peer has to say before it
//! is admitted, what an admitted peer may ask for, and what it is told.

pub mod client;
pub mod messages;
pub mod protocol;
pub mod server;
