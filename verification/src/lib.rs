//! A falling-block puzzle engine: a fixed-size board that takes polyomino
//! pieces, lets them fall to their resting row, and clears completed rows,
//! together with a seven-bag generator for the sequence of pieces.

pub mod board;
pub mod generator;
pub mod grid;
pub mod piece;
pub mod states;
