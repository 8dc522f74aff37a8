//! Reconstruction of a player's connection and team timeline from the
//! textual records of a game server's historical log.
//!
//! The pipeline is linear: records are normalized into events
//! ([`records`]), the events are put in time order and folded by a small
//! state machine into closed intervals ([`timeline`]).

pub mod laws;
pub mod login;
pub mod records;
pub mod team;
pub mod text;
pub mod timeline;
pub mod watch;
