//! One cell of the board.

use vstd::prelude::*;

verus! {

/// What the player sees of a cell.
#[derive(Clone, Copy, PartialEq, Eq, Hash, Debug, Structural)]
pub enum TileState {
    Hidden,
    Question,
    Marked,
    Visible,
}

/// A cell: whether it holds a mine, what the player sees of it, how many of
/// its neighbours hold a mine, and whether the loss animation is passing
/// over it.
#[derive(Clone, Copy, PartialEq, Eq, Hash, Debug, Structural)]
pub struct Tile {
    pub is_mine: bool,
    pub state: TileState,
    pub bombs_near: usize,
    pub fire: bool,
}

impl Tile {
    /// A cell as a new board holds it: hidden, no mine, no mine near.
    pub open spec fn blank() -> Tile {
        Tile { is_mine: false, state: TileState::Hidden, bombs_near: 0, fire: false }
    }

    /// The cell with another state and everything else as it was.
    pub open spec fn with_state(self, state: TileState) -> Tile {
        Tile { state, ..self }
    }

    /// The cell opened.
    pub open spec fn opened(self) -> Tile {
        self.with_state(TileState::Visible)
    }

    /// The cell holds no mine and has no mine near.
    pub open spec fn is_empty(self) -> bool {
        !self.is_mine && self.bombs_near == 0
    }

    pub fn is_mine(&self) -> (b: bool)
        ensures
            b == self.is_mine,
    {
        self.is_mine
    }

    pub fn tile_state(&self) -> (s: TileState)
        ensures
            s == self.state,
    {
        self.state
    }

    pub fn set_state(&mut self, state: TileState)
        ensures
            *final(self) == old(self).with_state(state),
    {
        self.state = state;
    }

    pub fn bombs_near(&self) -> (n: usize)
        ensures
            n == self.bombs_near,
    {
        self.bombs_near
    }
}

impl Default for Tile {
    fn default() -> (t: Tile)
        ensures
            t == Tile::blank(),
    {
        Tile { is_mine: false, state: TileState::Hidden, bombs_near: 0, fire: false }
    }
}

} // verus!
