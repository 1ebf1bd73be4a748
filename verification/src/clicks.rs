//! What the clicks do to the cell matrix.

use vstd::prelude::*;
use crate::flood::{flood_fill, flood_of, flooded};
use crate::flood::flood_is_maximal;
use crate::grid::{grid_of, inside, only_opened, put, same_shape, touching};
use crate::tile::{Tile, TileState};
use crate::walker::{do_around, kept_around, positions, Visit};

verus! {

/// The visit that keeps the flagged cells and changes nothing.
pub struct IsMarked;

impl Visit for IsMarked {
    open spec fn admits(&self, t: Tile) -> bool {
        true
    }

    open spec fn keeps(&self, t: Tile) -> bool {
        t.state == TileState::Marked
    }

    open spec fn leaves(&self, t: Tile) -> Tile {
        t
    }

    fn visit(&self, tile: &mut Tile) -> (kept: bool) {
        tile.tile_state() == TileState::Marked
    }
}

/// The visit that keeps the cells a chord opens, those neither flagged nor
/// open, and changes nothing.
pub struct IsOpenable;

impl Visit for IsOpenable {
    open spec fn admits(&self, t: Tile) -> bool {
        true
    }

    open spec fn keeps(&self, t: Tile) -> bool {
        t.state != TileState::Marked && t.state != TileState::Visible
    }

    open spec fn leaves(&self, t: Tile) -> Tile {
        t
    }

    fn visit(&self, tile: &mut Tile) -> (kept: bool) {
        tile.tile_state() != TileState::Marked && tile.tile_state() != TileState::Visible
    }
}

/// `after` is the matrix `g` but for the cell `(x, y)`, which is `t`.
pub open spec fn changed_at(g: Seq<Seq<Tile>>, x: int, y: int, t: Tile, after: Seq<Seq<Tile>>) -> bool {
    &&& same_shape(g, after)
    &&& forall|i: int, j: int|
        inside(g, i, j) ==> #[trigger] after[i][j] == if i == x && j == y {
            t
        } else {
            g[i][j]
        }
}

/// Both matrices hold the same cells.
pub open spec fn unchanged(g: Seq<Seq<Tile>>, after: Seq<Seq<Tile>>) -> bool {
    &&& same_shape(g, after)
    &&& forall|i: int, j: int| inside(g, i, j) ==> #[trigger] after[i][j] == g[i][j]
}

/// The matrix with the cell `(x, y)` opened.
pub open spec fn open_at(g: Seq<Seq<Tile>>, x: int, y: int) -> Seq<Seq<Tile>> {
    g.update(x, g[x].update(y, g[x][y].opened()))
}

/// A click on `(x, y)` opens it: it is a cell, not flagged, and closed or
/// a mine.
pub open spec fn opens(g: Seq<Seq<Tile>>, x: int, y: int) -> bool {
    inside(g, x, y) && g[x][y].state != TileState::Marked && (g[x][y].state != TileState::Visible
        || g[x][y].is_mine)
}

/// A click on `(x, y)` sets off a mine.
pub open spec fn blows_up(g: Seq<Seq<Tile>>, x: int, y: int) -> bool {
    inside(g, x, y) && g[x][y].state != TileState::Marked && g[x][y].is_mine
}

/// `after` is the matrix `g` after a click on `(x, y)`: nothing happens
/// outside the matrix, on a flagged cell and on an open cell without a
/// mine; else the cell is opened, and where it is empty the flood from it
/// opens what it opens.
#[verifier::opaque]
pub open spec fn clicked(g: Seq<Seq<Tile>>, x: int, y: int, after: Seq<Seq<Tile>>) -> bool {
    if !opens(g, x, y) {
        unchanged(g, after)
    } else if g[x][y].is_empty() {
        flood_of(open_at(g, x, y), x, y, after)
    } else {
        changed_at(g, x, y, g[x][y].opened(), after)
    }
}

/// The cell after a click that toggles its flag: an open cell stays as it
/// is, a flagged one is hidden, any other is flagged.
pub open spec fn flag_toggled(t: Tile) -> Tile {
    match t.state {
        TileState::Visible => t,
        TileState::Marked => t.with_state(TileState::Hidden),
        _ => t.with_state(TileState::Marked),
    }
}

/// The cell after a click that toggles its question mark: a hidden cell
/// gets the mark, a cell with the mark is hidden, an open or a flagged
/// cell stays as it is.
pub open spec fn question_toggled(t: Tile) -> Tile {
    match t.state {
        TileState::Hidden => t.with_state(TileState::Question),
        TileState::Question => t.with_state(TileState::Hidden),
        _ => t,
    }
}

/// The mines, and nothing but the mines, are flagged.
pub open spec fn all_flagged(g: Seq<Seq<Tile>>) -> bool {
    forall|i: int, j: int|
        inside(g, i, j) ==> ((#[trigger] g[i][j]).is_mine <==> g[i][j].state == TileState::Marked)
}

/// `after` is the matrix `g` with every cell without a mine opened.
pub open spec fn safe_opened(g: Seq<Seq<Tile>>, after: Seq<Seq<Tile>>) -> bool {
    &&& same_shape(g, after)
    &&& forall|i: int, j: int|
        inside(g, i, j) ==> #[trigger] after[i][j] == if g[i][j].is_mine {
            g[i][j]
        } else {
            g[i][j].opened()
        }
}

/// `after` is the matrix `g` with no cell lit by the animation.
pub open spec fn fire_cleared(g: Seq<Seq<Tile>>, after: Seq<Seq<Tile>>) -> bool {
    &&& same_shape(g, after)
    &&& forall|i: int, j: int| inside(g, i, j) ==> #[trigger] after[i][j] == Tile { fire: false, ..g[i][j] }
}

/// The number of flagged cells around `(x, y)`.
pub open spec fn marked_around(g: Seq<Seq<Tile>>, x: int, y: int) -> nat {
    kept_around(g, x, y, IsMarked).len()
}

/// The cells that a chord on `(x, y)` opens: the neighbours neither flagged
/// nor open, where `(x, y)` is a cell with as many flags around it as it
/// has mines around it; else none.
pub open spec fn chord_targets(g: Seq<Seq<Tile>>, x: int, y: int) -> Seq<(int, int)> {
    if inside(g, x, y) && g[x][y].bombs_near == marked_around(g, x, y) {
        kept_around(g, x, y, IsOpenable)
    } else {
        Seq::empty()
    }
}

/// The matrix after a click that toggles the flag of `(x, y)`.
pub open spec fn flag_toggled_at(g: Seq<Seq<Tile>>, x: int, y: int) -> Seq<Seq<Tile>> {
    put(g, x, y, flag_toggled(g[x][y]))
}

/// The matrix after a click that toggles the question mark of `(x, y)`.
pub open spec fn question_toggled_at(g: Seq<Seq<Tile>>, x: int, y: int) -> Seq<Seq<Tile>> {
    put(g, x, y, question_toggled(g[x][y]))
}

/// Every cell that was closed and empty in `g` and is open in `after` has
/// nothing but open cells beside it.
pub open spec fn cascaded(g: Seq<Seq<Tile>>, after: Seq<Seq<Tile>>) -> bool {
    forall|i: int, j: int, a: int, b: int|
        #![trigger touching(i, j, a, b), after[i][j]]
        inside(g, i, j) && g[i][j].state != TileState::Visible && g[i][j].is_empty() && after[i][j].state
            == TileState::Visible && touching(i, j, a, b) && inside(g, a, b) ==> after[a][b].state
            == TileState::Visible
}

/// A click only opens cells, and it opens the cell it is made on where it
/// opens any.
pub proof fn lemma_clicked(g: Seq<Seq<Tile>>, x: int, y: int, after: Seq<Seq<Tile>>)
    requires
        clicked(g, x, y, after),
    ensures
        only_opened(g, after),
        opens(g, x, y) ==> after[x][y].state == TileState::Visible,
{
    reveal(clicked);
    if !opens(g, x, y) {
    } else if g[x][y].is_empty() {
        let mid = open_at(g, x, y);
        assert(same_shape(g, mid));
        assert(same_shape(g, after)) by {
            assert forall|i: int| 0 <= i < g.len() implies (#[trigger] g[i]).len() == after[i].len() by {
                assert(g[i].len() == mid[i].len());
            }
        }
        assert forall|i: int, j: int| inside(g, i, j) implies #[trigger] after[i][j] == g[i][j] || after[i][j]
            == g[i][j].opened() by {
            assert(inside(mid, i, j));
            assert(after[i][j] == mid[i][j] || after[i][j] == mid[i][j].opened());
        }
    } else {
    }
}

/// A click opens every cell beside an empty cell that it opens.
pub proof fn lemma_click_cascades(g: Seq<Seq<Tile>>, x: int, y: int, after: Seq<Seq<Tile>>)
    requires
        clicked(g, x, y, after),
    ensures
        cascaded(g, after),
{
    reveal(clicked);
    if !opens(g, x, y) {
    } else if g[x][y].is_empty() {
        let mid = open_at(g, x, y);
        assert(same_shape(g, mid));
        flood_is_maximal(mid, x, y);
        assert forall|i: int, j: int, a: int, b: int|
            #![trigger touching(i, j, a, b), after[i][j]]
            inside(g, i, j) && g[i][j].state != TileState::Visible && g[i][j].is_empty() && after[i][j].state
                == TileState::Visible && touching(i, j, a, b) && inside(g, a, b) implies after[a][b].state
            == TileState::Visible by {
            assert(g[i].len() == mid[i].len() && g[a].len() == mid[a].len());
            assert(inside(mid, i, j) && inside(mid, a, b));
            if i == x && j == y {
                assert(crate::flood::reached(mid, x, y, i, j));
            } else {
                assert(mid[i][j] == g[i][j]);
                assert(flooded(mid, x, y, i, j));
                let (p, q) = choose|p: int, q: int|
                    touching(p, q, i, j) && #[trigger] crate::flood::reached(mid, x, y, p, q);
                assert(crate::flood::spreads(mid, i, j));
                assert(crate::flood::reached(mid, x, y, i, j));
            }
            assert(flooded(mid, x, y, a, b));
        }
    } else {
    }
}

/// Matrices that hold the same cells are the same.
pub proof fn lemma_unchanged(g: Seq<Seq<Tile>>, after: Seq<Seq<Tile>>)
    requires
        unchanged(g, after),
    ensures
        after == g,
{
    assert forall|i: int| 0 <= i < g.len() implies #[trigger] after[i] =~= g[i] by {
        assert(after[i].len() == g[i].len());
        assert forall|j: int| 0 <= j < g[i].len() implies after[i][j] == g[i][j] by {
            assert(inside(g, i, j));
        }
    }
    assert(after =~~= g);
}

/// The cells that a chord on `(x, y)` opens, in the order of the walk
/// round `(x, y)`.
pub fn chord_cells(tiles: &mut Vec<Vec<Tile>>, x: usize, y: usize) -> (cells: Vec<(usize, usize)>)
    ensures
        grid_of(*final(tiles)) == grid_of(*old(tiles)),
        positions(cells@) == chord_targets(grid_of(*old(tiles)), x as int, y as int),
{
    let ghost g = grid_of(*tiles);
    let mut cells: Vec<(usize, usize)> = Vec::new();
    assert(positions(cells@) =~= Seq::empty());
    if x < tiles.len() && y < tiles[x].len() {
        let num_around = tiles[x][y].bombs_near();
        let marked = do_around(x, y, tiles, &IsMarked);
        proof {
            lemma_unchanged(g, grid_of(*tiles));
            assert(positions(marked@).len() == marked@.len());
        }
        if num_around == marked.len() {
            let mut found = do_around(x, y, tiles, &IsOpenable);
            proof {
                lemma_unchanged(g, grid_of(*tiles));
            }
            cells.append(&mut found);
            assert(positions(cells@) =~= kept_around(g, x as int, y as int, IsOpenable));
        }
    }
    cells
}

/// Opens the cell `(x, y)` as a click does, and says whether a mine went
/// off.
pub fn open_cell(tiles: &mut Vec<Vec<Tile>>, x: usize, y: usize) -> (lost: bool)
    ensures
        clicked(grid_of(*old(tiles)), x as int, y as int, grid_of(*final(tiles))),
        lost == blows_up(grid_of(*old(tiles)), x as int, y as int),
{
    let ghost g = grid_of(*tiles);
    reveal(clicked);
    if x < tiles.len() && y < tiles[x].len() {
        let tile = tiles[x][y];
        if tile.tile_state() == TileState::Marked {
            false
        } else if tile.is_mine() {
            tiles[x][y].set_state(TileState::Visible);
            true
        } else if tile.tile_state() != TileState::Visible {
            tiles[x][y].set_state(TileState::Visible);
            proof {
                assert(grid_of(*tiles) =~~= open_at(g, x as int, y as int));
            }
            if tile.bombs_near() == 0 {
                flood_fill(tiles, x, y);
            }
            false
        } else {
            false
        }
    } else {
        false
    }
}

/// Toggles the flag of the cell `(x, y)`, and says whether `(x, y)` is a
/// cell.
pub fn toggle_flag(tiles: &mut Vec<Vec<Tile>>, x: usize, y: usize) -> (hit: bool)
    ensures
        hit == inside(grid_of(*old(tiles)), x as int, y as int),
        hit ==> changed_at(
            grid_of(*old(tiles)),
            x as int,
            y as int,
            flag_toggled(old(tiles)[x as int][y as int]),
            grid_of(*final(tiles)),
        ),
        !hit ==> unchanged(grid_of(*old(tiles)), grid_of(*final(tiles))),
{
    if x < tiles.len() && y < tiles[x].len() {
        let state = tiles[x][y].tile_state();
        if state == TileState::Visible {
        } else if state == TileState::Marked {
            tiles[x][y].set_state(TileState::Hidden);
        } else {
            tiles[x][y].set_state(TileState::Marked);
        }
        true
    } else {
        false
    }
}

/// Toggles the question mark of the cell `(x, y)`, and says whether
/// `(x, y)` is a cell.
pub fn toggle_question(tiles: &mut Vec<Vec<Tile>>, x: usize, y: usize) -> (hit: bool)
    ensures
        hit == inside(grid_of(*old(tiles)), x as int, y as int),
        hit ==> changed_at(
            grid_of(*old(tiles)),
            x as int,
            y as int,
            question_toggled(old(tiles)[x as int][y as int]),
            grid_of(*final(tiles)),
        ),
        !hit ==> unchanged(grid_of(*old(tiles)), grid_of(*final(tiles))),
{
    if x < tiles.len() && y < tiles[x].len() {
        let state = tiles[x][y].tile_state();
        if state == TileState::Hidden {
            tiles[x][y].set_state(TileState::Question);
        } else if state == TileState::Question {
            tiles[x][y].set_state(TileState::Hidden);
        }
        true
    } else {
        false
    }
}

} // verus!
