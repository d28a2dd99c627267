//! Rules engine of a falling-block puzzle game: the playfield, the active
//! piece, placement legality, rotation with wall kicks, line clearing,
//! scoring and level progression, each stated as a contract and proved.

pub mod grid;
pub mod piece;
pub mod catalog;
pub mod game;
pub mod play;
pub mod score;
pub mod random;
