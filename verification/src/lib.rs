//! A two-round dice elimination game: the dice model, the rule that decides
//! which dice leave after the first roll, and the parser for dice notation.

pub mod args;
pub mod dice;
pub mod game;
