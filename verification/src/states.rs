//! The states of the program.

pub mod game_state;
