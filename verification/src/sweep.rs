//! Passes over the whole matrix.

use vstd::prelude::*;
use crate::clicks::{all_flagged, fire_cleared, safe_opened};
use crate::grid::{grid_of, inside, mines_all, same_shape};
use crate::tile::{Tile, TileState};
use crate::walker::Visit;

verus! {

/// The visit that opens a cell without a mine.
pub struct OpenSafe;

impl Visit for OpenSafe {
    open spec fn admits(&self, t: Tile) -> bool {
        true
    }

    open spec fn keeps(&self, t: Tile) -> bool {
        !t.is_mine
    }

    open spec fn leaves(&self, t: Tile) -> Tile {
        if t.is_mine {
            t
        } else {
            t.opened()
        }
    }

    fn visit(&self, tile: &mut Tile) -> (kept: bool) {
        if !tile.is_mine() {
            tile.set_state(TileState::Visible);
            true
        } else {
            false
        }
    }
}

/// The visit that opens a mine.
pub struct ShowMine;

impl Visit for ShowMine {
    open spec fn admits(&self, t: Tile) -> bool {
        true
    }

    open spec fn keeps(&self, t: Tile) -> bool {
        t.is_mine
    }

    open spec fn leaves(&self, t: Tile) -> Tile {
        if t.is_mine {
            t.opened()
        } else {
            t
        }
    }

    fn visit(&self, tile: &mut Tile) -> (kept: bool) {
        if tile.is_mine() {
            tile.set_state(TileState::Visible);
            true
        } else {
            false
        }
    }
}

/// The visit that puts out the light of the animation.
pub struct Douse;

impl Visit for Douse {
    open spec fn admits(&self, t: Tile) -> bool {
        true
    }

    open spec fn keeps(&self, t: Tile) -> bool {
        t.fire
    }

    open spec fn leaves(&self, t: Tile) -> Tile {
        Tile { fire: false, ..t }
    }

    fn visit(&self, tile: &mut Tile) -> (kept: bool) {
        let lit = tile.fire;
        tile.fire = false;
        lit
    }
}

/// `after` is the matrix `g` with every cell as the visit leaves it.
pub open spec fn visited_all<V: Visit>(g: Seq<Seq<Tile>>, func: V, after: Seq<Seq<Tile>>) -> bool {
    &&& same_shape(g, after)
    &&& forall|i: int, j: int| inside(g, i, j) ==> #[trigger] after[i][j] == func.leaves(g[i][j])
}

/// Visits every cell, column by column.
pub fn do_everywhere<V: Visit>(tiles: &mut Vec<Vec<Tile>>, func: &V)
    requires
        forall|i: int, j: int| inside(grid_of(*old(tiles)), i, j) ==> func.admits(#[trigger] old(tiles)[i][j]),
    ensures
        visited_all(grid_of(*old(tiles)), *func, grid_of(*final(tiles))),
{
    let ghost g = grid_of(*tiles);
    let mut x: usize = 0;
    while x < tiles.len()
        invariant
            x <= tiles.len(),
            same_shape(g, grid_of(*tiles)),
            forall|i: int, j: int| inside(g, i, j) ==> func.admits(#[trigger] g[i][j]),
            forall|i: int, j: int|
                inside(g, i, j) ==> #[trigger] tiles[i][j] == if i < x {
                    func.leaves(g[i][j])
                } else {
                    g[i][j]
                },
        decreases tiles.len() - x,
    {
        let mut y: usize = 0;
        while y < tiles[x].len()
            invariant
                x < tiles.len(),
                y <= tiles[x as int].len(),
                same_shape(g, grid_of(*tiles)),
                forall|i: int, j: int| inside(g, i, j) ==> func.admits(#[trigger] g[i][j]),
                forall|i: int, j: int|
                    inside(g, i, j) ==> #[trigger] tiles[i][j] == if i < x || (i == x && j < y) {
                        func.leaves(g[i][j])
                    } else {
                        g[i][j]
                    },
            decreases tiles[x as int].len() - y,
        {
            assert(inside(g, x as int, y as int));
            let ghost before = grid_of(*tiles);
            func.visit(&mut tiles[x][y]);
            proof {
                let now = grid_of(*tiles);
                assert(same_shape(before, now));
                assert forall|i: int| 0 <= i < g.len() implies (#[trigger] g[i]).len() == now[i].len() by {
                    assert(g[i].len() == before[i].len());
                }
            }
            y += 1;
        }
        x += 1;
    }
}

/// Whether every mine has the given state.
pub fn all_mines_in(tiles: &Vec<Vec<Tile>>, state: TileState) -> (all: bool)
    ensures
        all == mines_all(grid_of(*tiles), state),
{
    let ghost g = grid_of(*tiles);
    let mut x: usize = 0;
    while x < tiles.len()
        invariant
            x <= tiles.len(),
            g == grid_of(*tiles),
            forall|i: int, j: int|
                inside(g, i, j) && i < x && (#[trigger] g[i][j]).is_mine ==> g[i][j].state == state,
        decreases tiles.len() - x,
    {
        let mut y: usize = 0;
        while y < tiles[x].len()
            invariant
                x < tiles.len(),
                y <= tiles[x as int].len(),
                g == grid_of(*tiles),
                forall|i: int, j: int|
                    inside(g, i, j) && (i < x || (i == x && j < y)) && (#[trigger] g[i][j]).is_mine
                        ==> g[i][j].state == state,
            decreases tiles[x as int].len() - y,
        {
            if tiles[x][y].is_mine() && tiles[x][y].tile_state() != state {
                assert(inside(g, x as int, y as int) && g[x as int][y as int].is_mine);
                return false;
            }
            y += 1;
        }
        x += 1;
    }
    true
}

/// Whether the mines, and nothing but the mines, are flagged.
pub fn flags_match_mines(tiles: &Vec<Vec<Tile>>) -> (all: bool)
    ensures
        all == all_flagged(grid_of(*tiles)),
{
    let ghost g = grid_of(*tiles);
    let mut x: usize = 0;
    while x < tiles.len()
        invariant
            x <= tiles.len(),
            g == grid_of(*tiles),
            forall|i: int, j: int|
                inside(g, i, j) && i < x ==> ((#[trigger] g[i][j]).is_mine <==> g[i][j].state
                    == TileState::Marked),
        decreases tiles.len() - x,
    {
        let mut y: usize = 0;
        while y < tiles[x].len()
            invariant
                x < tiles.len(),
                y <= tiles[x as int].len(),
                g == grid_of(*tiles),
                forall|i: int, j: int|
                    inside(g, i, j) && (i < x || (i == x && j < y)) ==> ((#[trigger] g[i][j]).is_mine
                        <==> g[i][j].state == TileState::Marked),
            decreases tiles[x as int].len() - y,
        {
            if tiles[x][y].is_mine() != (tiles[x][y].tile_state() == TileState::Marked) {
                assert(inside(g, x as int, y as int));
                return false;
            }
            y += 1;
        }
        x += 1;
    }
    true
}

/// Opens every cell without a mine.
pub fn open_safe(tiles: &mut Vec<Vec<Tile>>)
    ensures
        safe_opened(grid_of(*old(tiles)), grid_of(*final(tiles))),
{
    do_everywhere(tiles, &OpenSafe);
}

/// Opens every mine.
pub fn show_mines(tiles: &mut Vec<Vec<Tile>>)
    ensures
        visited_all(grid_of(*old(tiles)), ShowMine, grid_of(*final(tiles))),
{
    do_everywhere(tiles, &ShowMine);
}

/// Puts out the light of the animation on every cell.
pub fn douse(tiles: &mut Vec<Vec<Tile>>)
    ensures
        fire_cleared(grid_of(*old(tiles)), grid_of(*final(tiles))),
{
    do_everywhere(tiles, &Douse);
}

} // verus!
