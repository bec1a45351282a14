//! What a peer with a window shows, and what it makes of keys and clicks.
//!
//! Nothing here can change the outcome of a match: every number shown came from
//! the server, and every click is a request the server may refuse.

pub mod hud;
pub mod visuals;
