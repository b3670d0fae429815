//! The rules of the sliding-tile game 2048 on a four by four board:
//! how a move shifts and merges the tiles, and how a new tile appears.
//!
//! The board and its moves live in [`gameboard`], the reaction to key
//! presses in [`gameboard_controller`]. What a move does is stated over a
//! mathematical model: [`line`] says how one line of cells settles, [`grid`]
//! lifts that to the whole board, and [`laws`] proves what follows.
//!
//! Positions are pairs of a column `x` and a row `y`, both counted from 0 at
//! the upper left corner of the board.

pub mod gameboard;
pub mod gameboard_controller;
pub mod grid;
pub mod laws;
pub mod line;
mod progress;
mod random;

pub use gameboard::{Direction, Gameboard, SIZE};
pub use gameboard_controller::{GameboardController, Key};
