//! Core rules of a Minesweeper game: board construction, deferred mine
//! placement, tile reveal with flood fill, flag toggling with chord
//! shortcuts, and win/loss evaluation.

pub mod clock;
pub mod counting;
pub mod game;
mod rng;
