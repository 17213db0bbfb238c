//! Authoritative two-player game of circular pieces: the board and its
//! rules, the line-based wire protocol, the per-game session state machine
//! and the pairing of connections into games.
use vstd::prelude::*;

pub mod client;
pub mod game;
pub mod geometry;
pub mod lobby;
pub mod logger;
pub mod protocol;
pub mod session;
pub mod text;

verus! {

} // verus!
