//! A Minesweeper engine: a rectangular field of tiles, mine placement,
//! flood-fill opening, chording and the derivation of the game's outcome.
//!
//! Every operation of [`minefield::MineField`] is specified against the
//! mathematical model in [`board`].

pub mod tile;
pub mod board;
pub mod flood;
pub mod laws;
pub mod minefield;
pub mod game;
pub mod config;
mod random;
pub mod render;
