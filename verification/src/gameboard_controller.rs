//! The game board controller: what a key press does to the board.

use crate::gameboard::{Direction, Gameboard};
use crate::grid::{collapsed, fits, lemma_free_cells, new_tile_in, spawned};
use crate::laws::lemma_changed_board_has_room;
use vstd::prelude::*;

verus! {

/// A key of the keyboard, as far as the game tells keys apart.
#[derive(Clone, Copy, Debug, PartialEq, Eq)]
pub enum Key {
    Left,
    Right,
    Up,
    Down,
    /// Any key that asks for no move.
    Other,
}

impl Key {
    /// The direction of the move that the key asks for, if it asks for one.
    pub open spec fn direction(self) -> Option<Direction> {
        match self {
            Key::Left => Some(Direction::LEFT),
            Key::Right => Some(Direction::RIGHT),
            Key::Up => Some(Direction::UP),
            Key::Down => Some(Direction::DOWN),
            Key::Other => None,
        }
    }

    /// The direction of the move that the key asks for, if it asks for one.
    pub fn to_direction(&self) -> (dir: Option<Direction>)
        ensures
            dir == self.direction(),
    {
        match *self {
            Key::Left => Some(Direction::LEFT),
            Key::Right => Some(Direction::RIGHT),
            Key::Up => Some(Direction::UP),
            Key::Down => Some(Direction::DOWN),
            Key::Other => None,
        }
    }
}

/// The direction of the move that an event asks for: that of the key it
/// reports as pressed, if it reports one.
pub open spec fn intent(pressed: Option<Key>) -> Option<Direction> {
    match pressed {
        Some(key) => key.direction(),
        None => None,
    }
}

/// What an event makes of the board: without a direction, and where the move
/// changes nothing, the board stays as it is; else the move is made and a
/// new tile put on one of the cells that the move left empty.
pub open spec fn after_event(
    before: Seq<Seq<nat>>,
    pressed: Option<Key>,
    after: Seq<Seq<nat>>,
) -> bool {
    match intent(pressed) {
        Some(dir) => if collapsed(before, dir) == before {
            after == before
        } else {
            new_tile_in(collapsed(before, dir), after)
        },
        None => after == before,
    }
}

/// Handles events for the game.
pub struct GameboardController {
    /// Stores the gameboard state.
    pub gameboard: Gameboard,
}

impl GameboardController {
    /// Creates a new gameboard controller, and puts the first tile on an
    /// empty cell of the board, if it has one.
    pub fn new(gameboard: Gameboard) -> (controller: GameboardController)
        ensures
            spawned(gameboard@, controller.gameboard@),
            gameboard.well_formed() ==> controller.gameboard.well_formed(),
    {
        let mut gb = GameboardController { gameboard: gameboard };
        gb.gameboard.generate_tile();
        gb
    }

    /// Handles an event, given as the key that it reports as pressed, if it
    /// reports one. An arrow key makes the move in its direction, and a move
    /// that changed the board is followed by a new tile. Anything else
    /// leaves the board as it is.
    pub fn event(&mut self, pressed: Option<Key>)
        requires
            intent(pressed) matches Some(dir) ==> fits(old(self).gameboard@, dir),
        ensures
            after_event(old(self).gameboard@, pressed, final(self).gameboard@),
            old(self).gameboard.well_formed() ==> final(self).gameboard.well_formed(),
    {
        if let Some(key) = pressed {
            let was_valid_move = match key.to_direction() {
                Some(dir) => self.gameboard.collapse(dir),
                None => false,
            };
            if was_valid_move {
                proof {
                    let dir = intent(pressed).unwrap();
                    lemma_changed_board_has_room(old(self).gameboard@, dir);
                    lemma_free_cells(self.gameboard@);
                }
                self.gameboard.generate_tile();
            }
        }
    }
}

} // verus!
