//! The engine of a multiplayer party card game: many small rooms, each
//! running a fixed round cycle in which one player gives a one-word clue
//! for a card, the others submit decoys, everyone votes on the center,
//! and points are tallied. Rooms live in a registry that hands out
//! unique codes and reclaims rooms left idle with nobody connected.
//!
//! Every state change is a pure operation on `room::RoomState` or
//! `registry::Registry` that returns the messages to deliver; the
//! network, the locks and the channels around it live with the caller.

pub mod msgs;
mod rng;
pub mod text;
pub mod room;
pub mod scoring;
pub mod registry;
