//! The regions of empty cells: once one of their cells is open, all of
//! them are, and so are the cells round them.

use vstd::prelude::*;
use crate::animation::ring_drawn;
use crate::clicks::{cascaded, safe_opened};
use crate::flood::{flood_is_maximal, flood_of, flooded, reached, spreads};
use crate::grid::{counts_exact, inside, mine_at, mines_around, only_opened, put, regions_open, touching};
use crate::tile::{Tile, TileState};

verus! {

/// `(x, y)` lies in the region of empty cells round `(sx, sy)`: a chain of
/// at most `n` empty cells, each beside the one before, leads to it from
/// `(sx, sy)`.
pub open spec fn in_region(g: Seq<Seq<Tile>>, sx: int, sy: int, n: nat, x: int, y: int) -> bool
    decreases n,
{
    if n == 0 {
        x == sx && y == sy
    } else {
        let m = (n - 1) as nat;
        in_region(g, sx, sy, m, x, y) || (inside(g, x, y) && g[x][y].is_empty() && (in_region(g, sx, sy, m, x, y - 1)
            || in_region(g, sx, sy, m, x, y + 1) || in_region(g, sx, sy, m, x - 1, y) || in_region(
            g,
            sx,
            sy,
            m,
            x + 1,
            y,
        ) || in_region(g, sx, sy, m, x + 1, y + 1) || in_region(g, sx, sy, m, x - 1, y + 1) || in_region(
            g,
            sx,
            sy,
            m,
            x + 1,
            y - 1,
        ) || in_region(g, sx, sy, m, x - 1, y - 1)))
    }
}

/// A position beside `(x, y)` that lies in the region within `m` steps,
/// where there is one.
spec fn region_step(g: Seq<Seq<Tile>>, sx: int, sy: int, m: nat, x: int, y: int) -> (int, int) {
    if in_region(g, sx, sy, m, x, y - 1) {
        (x, y - 1)
    } else if in_region(g, sx, sy, m, x, y + 1) {
        (x, y + 1)
    } else if in_region(g, sx, sy, m, x - 1, y) {
        (x - 1, y)
    } else if in_region(g, sx, sy, m, x + 1, y) {
        (x + 1, y)
    } else if in_region(g, sx, sy, m, x + 1, y + 1) {
        (x + 1, y + 1)
    } else if in_region(g, sx, sy, m, x - 1, y + 1) {
        (x - 1, y + 1)
    } else if in_region(g, sx, sy, m, x + 1, y - 1) {
        (x + 1, y - 1)
    } else {
        (x - 1, y - 1)
    }
}

/// Where every open, empty cell has open cells beside it, the whole region
/// of empty cells round an open, empty cell is open, and so is every cell
/// beside the region.
pub proof fn region_is_open(g: Seq<Seq<Tile>>, sx: int, sy: int, n: nat, x: int, y: int)
    requires
        regions_open(g),
        inside(g, sx, sy),
        g[sx][sy].state == TileState::Visible,
        g[sx][sy].is_empty(),
        in_region(g, sx, sy, n, x, y),
    ensures
        inside(g, x, y),
        g[x][y].state == TileState::Visible,
        g[x][y].is_empty(),
        forall|a: int, b: int| touching(x, y, a, b) && inside(g, a, b) ==> (#[trigger] g[a][b]).state == TileState::Visible,
    decreases n,
{
    reveal(regions_open);
    if n == 0 {
    } else if in_region(g, sx, sy, (n - 1) as nat, x, y) {
        region_is_open(g, sx, sy, (n - 1) as nat, x, y);
    } else {
        let m = (n - 1) as nat;
        let (i, j) = region_step(g, sx, sy, m, x, y);
        region_is_open(g, sx, sy, m, i, j);
        assert(touching(i, j, x, y));
        assert(g[i][j].state == TileState::Visible);
    }
    assert forall|a: int, b: int| touching(x, y, a, b) && inside(g, a, b) implies (#[trigger] g[a][b]).state
        == TileState::Visible by {
        assert(touching(x, y, a, b));
        assert(g[x][y].state == TileState::Visible);
    }
}

/// Opening cells, each empty one with all cells beside it, keeps the
/// regions open.
pub proof fn lemma_regions_opened(g: Seq<Seq<Tile>>, after: Seq<Seq<Tile>>)
    requires
        regions_open(g),
        only_opened(g, after),
        cascaded(g, after),
    ensures
        regions_open(after),
{
    reveal(regions_open);
    assert forall|i: int, j: int, a: int, b: int|
        #![trigger touching(i, j, a, b), after[i][j]]
        inside(after, i, j) && after[i][j].state == TileState::Visible && after[i][j].is_empty() && touching(
            i,
            j,
            a,
            b,
        ) && inside(after, a, b) implies after[a][b].state == TileState::Visible by {
        assert(g[i].len() == after[i].len() && g[a].len() == after[a].len());
        assert(inside(g, i, j) && inside(g, a, b));
        assert(after[i][j] == g[i][j] || after[i][j] == g[i][j].opened());
        assert(after[a][b] == g[a][b] || after[a][b] == g[a][b].opened());
        if g[i][j].state == TileState::Visible {
            assert(touching(i, j, a, b));
            assert(g[a][b].state == TileState::Visible);
        } else {
            assert(touching(i, j, a, b));
        }
    }
}

/// Replacing a cell by one that is open just where the cell was keeps the
/// regions open.
pub proof fn lemma_regions_put(g: Seq<Seq<Tile>>, x: int, y: int, t: Tile)
    requires
        regions_open(g),
        inside(g, x, y) ==> {
            &&& t.is_mine == g[x][y].is_mine
            &&& t.bombs_near == g[x][y].bombs_near
            &&& t.state == TileState::Visible <==> g[x][y].state == TileState::Visible
        },
    ensures
        regions_open(put(g, x, y, t)),
{
    reveal(regions_open);
    let after = put(g, x, y, t);
    assert forall|i: int, j: int, a: int, b: int|
        #![trigger touching(i, j, a, b), after[i][j]]
        inside(after, i, j) && after[i][j].state == TileState::Visible && after[i][j].is_empty() && touching(
            i,
            j,
            a,
            b,
        ) && inside(after, a, b) implies after[a][b].state == TileState::Visible by {
        assert(inside(g, i, j) && inside(g, a, b));
        assert(g[i][j].state == TileState::Visible && g[i][j].is_empty());
        assert(touching(i, j, a, b));
        assert(g[a][b].state == TileState::Visible);
    }
}

/// Opening every cell without a mine leaves the regions open.
pub proof fn lemma_regions_won(g: Seq<Seq<Tile>>, after: Seq<Seq<Tile>>)
    requires
        counts_exact(g),
        safe_opened(g, after),
    ensures
        regions_open(after),
{
    reveal(regions_open);
    assert forall|i: int, j: int, a: int, b: int|
        #![trigger touching(i, j, a, b), after[i][j]]
        inside(after, i, j) && after[i][j].state == TileState::Visible && after[i][j].is_empty() && touching(
            i,
            j,
            a,
            b,
        ) && inside(after, a, b) implies after[a][b].state == TileState::Visible by {
        assert(g[i].len() == after[i].len() && g[a].len() == after[a].len());
        assert(inside(g, i, j) && inside(g, a, b));
        assert(g[i][j].bombs_near == 0);
        assert(g[i][j].bombs_near == mines_around(g, i, j));
        lemma_no_mine_beside(g, i, j, a, b);
        assert(!g[a][b].is_mine);
    }
}

/// Where no mine lies around a position, none lies on a cell beside it.
proof fn lemma_no_mine_beside(g: Seq<Seq<Tile>>, i: int, j: int, x: int, y: int)
    requires
        mines_around(g, i, j) == 0,
        touching(i, j, x, y),
    ensures
        mine_at(g, x, y) == 0,
{
}

/// The flood opens every cell beside an empty cell that it opens.
pub proof fn lemma_flood_cascades(g: Seq<Seq<Tile>>, sx: int, sy: int, after: Seq<Seq<Tile>>)
    requires
        flood_of(g, sx, sy, after),
    ensures
        only_opened(g, after),
        cascaded(g, after),
{
    flood_is_maximal(g, sx, sy);
    assert forall|i: int, j: int, a: int, b: int|
        #![trigger touching(i, j, a, b), after[i][j]]
        inside(g, i, j) && g[i][j].state != TileState::Visible && g[i][j].is_empty() && after[i][j].state
            == TileState::Visible && touching(i, j, a, b) && inside(g, a, b) implies after[a][b].state
        == TileState::Visible by {
        assert(flooded(g, sx, sy, i, j));
        let (p, q) = choose|p: int, q: int| touching(p, q, i, j) && #[trigger] reached(g, sx, sy, p, q);
        assert(spreads(g, i, j));
        assert(reached(g, sx, sy, i, j));
        assert(flooded(g, sx, sy, a, b));
    }
}

/// A tick of the animation keeps the regions open.
pub proof fn lemma_regions_ring(g: Seq<Seq<Tile>>, ring: Seq<(int, int)>, after: Seq<Seq<Tile>>)
    requires
        regions_open(g),
        ring_drawn(g, ring, after),
    ensures
        regions_open(after),
{
    reveal(regions_open);
    assert forall|i: int, j: int, a: int, b: int|
        #![trigger touching(i, j, a, b), after[i][j]]
        inside(after, i, j) && after[i][j].state == TileState::Visible && after[i][j].is_empty() && touching(
            i,
            j,
            a,
            b,
        ) && inside(after, a, b) implies after[a][b].state == TileState::Visible by {
        assert(g[i].len() == after[i].len() && g[a].len() == after[a].len());
        assert(inside(g, i, j) && inside(g, a, b));
        assert(g[i][j].state == TileState::Visible && g[i][j].is_empty());
        assert(touching(i, j, a, b));
        assert(g[a][b].state == TileState::Visible);
    }
}

} // verus!
