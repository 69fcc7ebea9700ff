//! Room engine of a multiplayer party game: pronounceable room codes, the
//! registry of live rooms, and the per-room state machine.

pub mod game;
pub mod id_gen;
pub mod lobby;
pub mod random;
pub mod registry;
