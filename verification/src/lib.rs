//! Green TD: the rules of a multiplayer tower defence, verified.
//!
//! `data` is what both peers are, `map` the board they stand on, `sim` what only
//! the server knows, `net` how the two agree, and `ui` what a player sees;
//! `config`, `settings` and `logging` are how a run is started and recorded.
//! `scalar`, `order` and `vector` are the numbers all of it computes with, as
//! integers, so that a match comes out the same on every machine; `table`,
//! `sorting`, `text` and `message` are what the rest is built from.

pub mod config;
pub mod data;
pub mod logging;
pub mod map;
pub mod message;
pub mod net;
pub mod order;
pub mod ratelimit;
pub mod scalar;
pub mod settings;
pub mod sim;
pub mod sorting;
pub mod table;
pub mod text;
pub mod ui;
pub mod vector;
