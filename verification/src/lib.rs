//! Core of a multiplayer server for a legacy arcade ice-hockey game:
//! the bit-level wire codec, the game-state data model, and the
//! elimination-style "Russian" rules state machine.

pub mod codec;
pub mod game;
pub mod russian;
