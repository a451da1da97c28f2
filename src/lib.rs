//! Rules engine and fixed-depth move search for a six-pit Kalah board.
pub mod rules;
pub mod game;
pub mod search;
pub mod replay;
pub mod frequency;
