//! The mathematical model of the cell matrix: a sequence of columns, each a
//! sequence of cells, addressed as `g[x][y]`.

use vstd::prelude::*;
use vstd::set_lib::*;
use crate::tile::{Tile, TileState};

verus! {

/// The matrix that a vector of columns stands for.
pub open spec fn grid_of(tiles: Vec<Vec<Tile>>) -> Seq<Seq<Tile>> {
    Seq::new(tiles.len() as nat, |x: int| tiles[x]@)
}

/// `(x, y)` addresses a cell of the matrix.
pub open spec fn inside(g: Seq<Seq<Tile>>, x: int, y: int) -> bool {
    0 <= x < g.len() && 0 <= y < g[x].len()
}

/// `(i, j)` is one of the eight positions around `(x, y)`.
pub open spec fn touching(x: int, y: int, i: int, j: int) -> bool {
    x - 1 <= i <= x + 1 && y - 1 <= j <= y + 1 && !(i == x && j == y)
}

/// Both matrices have the same columns of the same lengths.
pub open spec fn same_shape(a: Seq<Seq<Tile>>, b: Seq<Seq<Tile>>) -> bool {
    &&& a.len() == b.len()
    &&& forall|x: int| 0 <= x < a.len() ==> (#[trigger] a[x]).len() == b[x].len()
}

/// The matrix has `w` columns of `h` cells each.
pub open spec fn rectangular(g: Seq<Seq<Tile>>, w: int, h: int) -> bool {
    &&& g.len() == w
    &&& forall|x: int| 0 <= x < g.len() ==> (#[trigger] g[x]).len() == h
}

/// Both matrices hold the same mines and the same neighbour counts.
pub open spec fn same_layout(a: Seq<Seq<Tile>>, b: Seq<Seq<Tile>>) -> bool {
    &&& same_shape(a, b)
    &&& forall|x: int, y: int|
        inside(a, x, y) ==> (#[trigger] a[x][y]).is_mine == b[x][y].is_mine && a[x][y].bombs_near
            == b[x][y].bombs_near
}

/// 1 if `(x, y)` is a cell that holds a mine, else 0.
pub open spec fn mine_at(g: Seq<Seq<Tile>>, x: int, y: int) -> int {
    if inside(g, x, y) && g[x][y].is_mine {
        1
    } else {
        0
    }
}

/// The number of mines among the cells around `(x, y)`; a position outside
/// the matrix counts as none.
pub open spec fn mines_around(g: Seq<Seq<Tile>>, x: int, y: int) -> int {
    mine_at(g, x, y - 1) + mine_at(g, x, y + 1) + mine_at(g, x - 1, y) + mine_at(g, x + 1, y)
        + mine_at(g, x + 1, y + 1) + mine_at(g, x - 1, y + 1) + mine_at(g, x + 1, y - 1) + mine_at(
        g,
        x - 1,
        y - 1,
    )
}

/// Every cell's neighbour count is the number of mines around it.
pub open spec fn counts_exact(g: Seq<Seq<Tile>>) -> bool {
    forall|x: int, y: int| inside(g, x, y) ==> (#[trigger] g[x][y]).bombs_near == mines_around(g, x, y)
}

/// The positions of all cells.
pub open spec fn cells(g: Seq<Seq<Tile>>) -> Set<(int, int)> {
    Set::new(|c: (int, int)| inside(g, c.0, c.1))
}

/// The positions of the cells that hold a mine.
pub open spec fn mine_cells(g: Seq<Seq<Tile>>) -> Set<(int, int)> {
    Set::new(|c: (int, int)| inside(g, c.0, c.1) && g[c.0][c.1].is_mine)
}

/// The positions of the cells that are not open.
pub open spec fn closed_cells(g: Seq<Seq<Tile>>) -> Set<(int, int)> {
    Set::new(|c: (int, int)| inside(g, c.0, c.1) && g[c.0][c.1].state != TileState::Visible)
}

/// Every cell is hidden, and none is lit by the animation.
pub open spec fn all_hidden(g: Seq<Seq<Tile>>) -> bool {
    forall|x: int, y: int|
        inside(g, x, y) ==> (#[trigger] g[x][y]).state == TileState::Hidden && !g[x][y].fire
}

/// Every mine has the given state.
pub open spec fn mines_all(g: Seq<Seq<Tile>>, state: TileState) -> bool {
    forall|x: int, y: int| inside(g, x, y) && (#[trigger] g[x][y]).is_mine ==> g[x][y].state == state
}

/// The matrix with the cell `(x, y)` replaced by `t`; the matrix itself
/// where `(x, y)` is no cell.
pub open spec fn put(g: Seq<Seq<Tile>>, x: int, y: int, t: Tile) -> Seq<Seq<Tile>> {
    if inside(g, x, y) {
        g.update(x, g[x].update(y, t))
    } else {
        g
    }
}

/// The matrix with every cell hidden and unlit, the mines and the counts
/// as they are.
pub open spec fn covered(g: Seq<Seq<Tile>>) -> Seq<Seq<Tile>> {
    Seq::new(
        g.len(),
        |x: int| Seq::new(g[x].len(), |y: int| Tile { state: TileState::Hidden, fire: false, ..g[x][y] }),
    )
}

/// Each cell of `after` is the cell of `g` at its place, as it was or
/// opened.
pub open spec fn only_opened(g: Seq<Seq<Tile>>, after: Seq<Seq<Tile>>) -> bool {
    &&& same_shape(g, after)
    &&& forall|x: int, y: int|
        inside(g, x, y) ==> #[trigger] after[x][y] == g[x][y] || after[x][y] == g[x][y].opened()
}

/// Every open, empty cell has nothing but open cells beside it.
#[verifier::opaque]
pub open spec fn regions_open(g: Seq<Seq<Tile>>) -> bool {
    forall|i: int, j: int, a: int, b: int|
        #![trigger touching(i, j, a, b), g[i][j]]
        inside(g, i, j) && g[i][j].state == TileState::Visible && g[i][j].is_empty() && touching(i, j, a, b)
            && inside(g, a, b) ==> g[a][b].state == TileState::Visible
}

/// The positions `(x, j)` with `j` below `h`.
pub open spec fn column_cells(x: int, h: int) -> Set<(int, int)> {
    Set::new(|c: (int, int)| c.0 == x && 0 <= c.1 < h)
}

/// The positions `(i, j)` with `i` below `w` and `j` below `h`.
pub open spec fn block_cells(w: int, h: int) -> Set<(int, int)> {
    Set::new(|c: (int, int)| 0 <= c.0 < w && 0 <= c.1 < h)
}

proof fn lemma_column_cells(x: int, h: int)
    requires
        0 <= h,
    ensures
        column_cells(x, h).finite(),
        column_cells(x, h).len() == h,
    decreases h,
{
    if h == 0 {
        assert(column_cells(x, h) =~= Set::empty());
    } else {
        lemma_column_cells(x, h - 1);
        assert(column_cells(x, h) =~= column_cells(x, h - 1).insert((x, h - 1)));
    }
}

proof fn lemma_block_cells(w: int, h: int)
    requires
        0 <= w,
        0 <= h,
    ensures
        block_cells(w, h).finite(),
        block_cells(w, h).len() == w * h,
    decreases w,
{
    if w == 0 {
        assert(block_cells(w, h) =~= Set::empty());
    } else {
        lemma_block_cells(w - 1, h);
        lemma_column_cells(w - 1, h);
        let rest = block_cells(w - 1, h);
        let last = column_cells(w - 1, h);
        assert(rest.disjoint(last));
        assert(block_cells(w, h) =~= rest + last);
        lemma_set_disjoint_lens(rest, last);
        assert(w * h == (w - 1) * h + h) by (nonlinear_arith);
    }
}

/// A matrix of `w` columns of `h` cells has `w * h` cells, and its sets of
/// mines and of closed cells are finite parts of them.
pub proof fn lemma_cells_of_rectangle(g: Seq<Seq<Tile>>, w: int, h: int)
    requires
        rectangular(g, w, h),
        0 <= h,
    ensures
        cells(g).finite(),
        cells(g).len() == w * h,
        mine_cells(g).finite(),
        mine_cells(g).subset_of(cells(g)),
        mine_cells(g).len() <= w * h,
        closed_cells(g).finite(),
        closed_cells(g).subset_of(cells(g)),
        closed_cells(g).len() <= w * h,
{
    lemma_block_cells(w, h);
    assert(cells(g) =~= block_cells(w, h));
    lemma_len_subset(mine_cells(g), cells(g));
    lemma_len_subset(closed_cells(g), cells(g));
}

/// The cells of a matrix whose columns have `bound` cells at most are
/// finitely many.
pub proof fn lemma_cells_are_finite(g: Seq<Seq<Tile>>, bound: int)
    requires
        0 <= bound,
        forall|x: int| 0 <= x < g.len() ==> (#[trigger] g[x]).len() <= bound,
    ensures
        cells(g).finite(),
        mine_cells(g).finite(),
        closed_cells(g).finite(),
{
    lemma_block_cells(g.len() as int, bound);
    let block = block_cells(g.len() as int, bound);
    assert(cells(g).subset_of(block));
    assert(mine_cells(g).subset_of(block));
    assert(closed_cells(g).subset_of(block));
    lemma_len_subset(cells(g), block);
    lemma_len_subset(mine_cells(g), block);
    lemma_len_subset(closed_cells(g), block);
}

/// A matrix with the mines and the counts of another has exact counts where
/// the other has, and the same set of mines.
pub proof fn lemma_same_layout(g: Seq<Seq<Tile>>, after: Seq<Seq<Tile>>)
    requires
        same_layout(g, after),
    ensures
        counts_exact(g) ==> counts_exact(after),
        mine_cells(after) == mine_cells(g),
        forall|w: int, h: int| rectangular(g, w, h) ==> rectangular(after, w, h),
{
    assert forall|x: int, y: int| inside(g, x, y) == inside(after, x, y) by {
        if 0 <= x < g.len() {
            assert(g[x].len() == after[x].len());
        }
    }
    assert forall|x: int, y: int| mine_at(after, x, y) == mine_at(g, x, y) by {
        if inside(g, x, y) {
            assert(g[x][y].is_mine == after[x][y].is_mine);
        }
    }
    if counts_exact(g) {
        assert forall|x: int, y: int| inside(after, x, y) implies (#[trigger] after[x][y]).bombs_near
            == mines_around(after, x, y) by {
            assert(g[x][y].bombs_near == after[x][y].bombs_near);
            assert(g[x][y].bombs_near == mines_around(g, x, y));
        }
    }
    assert forall|c: (int, int)| mine_cells(after).contains(c) == mine_cells(g).contains(c) by {
        if inside(g, c.0, c.1) {
            assert(g[c.0][c.1].is_mine == after[c.0][c.1].is_mine);
        }
    }
    assert(mine_cells(after) =~= mine_cells(g));
    assert forall|w: int, h: int| rectangular(g, w, h) implies rectangular(after, w, h) by {
        assert forall|x: int| 0 <= x < after.len() implies (#[trigger] after[x]).len() == h by {
            assert(g[x].len() == after[x].len());
        }
    }
}

/// Opening cells changes neither the mines nor the counts.
pub proof fn lemma_only_opened(g: Seq<Seq<Tile>>, after: Seq<Seq<Tile>>)
    requires
        only_opened(g, after),
    ensures
        same_layout(g, after),
        closed_cells(after).subset_of(closed_cells(g)),
{
    assert forall|x: int, y: int| inside(g, x, y) implies (#[trigger] g[x][y]).is_mine == after[x][y].is_mine
        && g[x][y].bombs_near == after[x][y].bombs_near by {
        assert(after[x][y] == g[x][y] || after[x][y] == g[x][y].opened());
    }
    assert forall|c: (int, int)| closed_cells(after).contains(c) implies closed_cells(g).contains(c) by {
        assert(g[c.0].len() == after[c.0].len());
        assert(after[c.0][c.1] == g[c.0][c.1] || after[c.0][c.1] == g[c.0][c.1].opened());
    }
}

} // verus!
