//! Laying the mines of a new board.

use vstd::prelude::*;
use vstd::set_lib::{lemma_len_subset, lemma_len_union};
use rand::rngs::ThreadRng;
use crate::chance::draw_below;
use crate::difficulty::Difficulty;
use crate::grid::{
    all_hidden, cells, counts_exact, grid_of, inside, lemma_cells_of_rectangle, mine_at, mine_cells,
    mines_around, rectangular, same_shape, touching,
};
use crate::tile::{Tile, TileState};
use crate::walker::{do_around, Visit};

verus! {

/// How often a position is drawn for one mine before the first free cell
/// is taken instead.
pub const DRAW_LIMIT: usize = 4096;

/// The visit that tells a cell of one more mine beside it.
pub struct CountUp;

impl Visit for CountUp {
    open spec fn admits(&self, t: Tile) -> bool {
        t.bombs_near < usize::MAX
    }

    open spec fn keeps(&self, t: Tile) -> bool {
        false
    }

    open spec fn leaves(&self, t: Tile) -> Tile {
        Tile { bombs_near: (t.bombs_near + 1) as usize, ..t }
    }

    fn visit(&self, tile: &mut Tile) -> (kept: bool) {
        tile.bombs_near = tile.bombs_near + 1;
        false
    }
}

/// `(i, j)` is `(cx, cy)` or one of the positions around it.
pub open spec fn near(cx: int, cy: int, i: int, j: int) -> bool {
    cx - 1 <= i <= cx + 1 && cy - 1 <= j <= cy + 1
}

/// `(i, j)` lies where no mine may be laid: at the position to keep clear
/// or beside it.
pub open spec fn kept_clear(clear: Option<(usize, usize)>, i: int, j: int) -> bool {
    clear matches Some(c) && near(c.0 as int, c.1 as int, i, j)
}

/// A new matrix of `w` by `h` cells with `mines` mines: every cell hidden,
/// every neighbour count exact.
pub open spec fn fresh(g: Seq<Seq<Tile>>, w: int, h: int, mines: int) -> bool {
    &&& rectangular(g, w, h)
    &&& all_hidden(g)
    &&& counts_exact(g)
    &&& mine_cells(g).finite()
    &&& mine_cells(g).len() == mines
}

/// No mine lies at the position to keep clear or beside it.
pub open spec fn clear_of_mines(g: Seq<Seq<Tile>>, clear: Option<(usize, usize)>) -> bool {
    forall|i: int, j: int| inside(g, i, j) && kept_clear(clear, i, j) ==> !(#[trigger] g[i][j]).is_mine
}

/// The positions where no mine may be laid.
spec fn clear_zone(clear: Option<(usize, usize)>) -> Set<(int, int)> {
    Set::new(|c: (int, int)| kept_clear(clear, c.0, c.1))
}

proof fn lemma_clear_zone(clear: Option<(usize, usize)>)
    ensures
        clear_zone(clear).finite(),
        clear_zone(clear).len() <= (if clear is Some {
            9int
        } else {
            0int
        }),
{
    match clear {
        None => {
            assert(clear_zone(clear) =~= Set::empty());
        },
        Some(c) => {
            let x = c.0 as int;
            let y = c.1 as int;
            let s0 = Set::<(int, int)>::empty();
            let s1 = s0.insert((x - 1, y - 1));
            let s2 = s1.insert((x - 1, y));
            let s3 = s2.insert((x - 1, y + 1));
            let s4 = s3.insert((x, y - 1));
            let s5 = s4.insert((x, y));
            let s6 = s5.insert((x, y + 1));
            let s7 = s6.insert((x + 1, y - 1));
            let s8 = s7.insert((x + 1, y));
            let s9 = s8.insert((x + 1, y + 1));
            assert(s1.len() <= 1 && s2.len() <= 2 && s3.len() <= 3 && s4.len() <= 4 && s5.len() <= 5);
            assert(s6.len() <= 6 && s7.len() <= 7 && s8.len() <= 8 && s9.len() <= 9);
            assert(clear_zone(clear) =~= s9);
        },
    }
}

/// While fewer mines lie than there are cells outside the positions to
/// keep clear, one of those cells is free.
proof fn lemma_room_left(g: Seq<Seq<Tile>>, w: int, h: int, clear: Option<(usize, usize)>)
    requires
        rectangular(g, w, h),
        0 <= h,
        mine_cells(g).len() + (if clear is Some {
            9int
        } else {
            0int
        }) < w * h,
    ensures
        exists|i: int, j: int| inside(g, i, j) && !(#[trigger] g[i][j]).is_mine && !kept_clear(clear, i, j),
{
    if forall|i: int, j: int| inside(g, i, j) ==> (#[trigger] g[i][j]).is_mine || kept_clear(clear, i, j) {
        lemma_cells_of_rectangle(g, w, h);
        lemma_clear_zone(clear);
        let taken = mine_cells(g) + clear_zone(clear);
        assert forall|c: (int, int)| cells(g).contains(c) implies taken.contains(c) by {
            assert(inside(g, c.0, c.1));
            assert(g[c.0][c.1].is_mine || kept_clear(clear, c.0, c.1));
        }
        lemma_len_union(mine_cells(g), clear_zone(clear));
        lemma_len_subset(cells(g), taken);
    }
}

/// Whether `(x, y)` lies where no mine may be laid.
fn is_kept_clear(clear: Option<(usize, usize)>, x: usize, y: usize) -> (yes: bool)
    ensures
        yes == kept_clear(clear, x as int, y as int),
{
    match clear {
        None => false,
        Some(c) => x.saturating_sub(1) <= c.0 && c.0.saturating_sub(1) <= x && y.saturating_sub(1) <= c.1
            && c.1.saturating_sub(1) <= y,
    }
}

/// The first cell, column by column, where a mine may still be laid.
fn first_free(tiles: &Vec<Vec<Tile>>, w: usize, h: usize, clear: Option<(usize, usize)>) -> (spot: (
    usize,
    usize,
))
    requires
        rectangular(grid_of(*tiles), w as int, h as int),
        mine_cells(grid_of(*tiles)).len() + (if clear is Some {
            9int
        } else {
            0int
        }) < w * h,
    ensures
        inside(grid_of(*tiles), spot.0 as int, spot.1 as int),
        !tiles[spot.0 as int][spot.1 as int].is_mine,
        !kept_clear(clear, spot.0 as int, spot.1 as int),
{
    let ghost g = grid_of(*tiles);
    let mut x: usize = 0;
    while x < w
        invariant
            x <= w,
            g == grid_of(*tiles),
            rectangular(g, w as int, h as int),
            forall|i: int, j: int|
                inside(g, i, j) && i < x ==> (#[trigger] g[i][j]).is_mine || kept_clear(clear, i, j),
        decreases w - x,
    {
        let mut y: usize = 0;
        while y < h
            invariant
                x < w,
                y <= h,
                g == grid_of(*tiles),
                rectangular(g, w as int, h as int),
                forall|i: int, j: int|
                    inside(g, i, j) && (i < x || (i == x && j < y)) ==> (#[trigger] g[i][j]).is_mine
                        || kept_clear(clear, i, j),
            decreases h - y,
        {
            assert(g[x as int].len() == h);
            if !tiles[x][y].is_mine && !is_kept_clear(clear, x, y) {
                return (x, y);
            }
            y += 1;
        }
        x += 1;
    }
    proof {
        // Every cell was looked at, and one of them is free.
        lemma_room_left(g, w as int, h as int, clear);
        assert(false);
    }
    (0, 0)
}

/// A cell where a mine may still be laid: the first free one among up to
/// `DRAW_LIMIT` positions drawn at random, or else the first free one of
/// the matrix.
fn free_spot(tiles: &Vec<Vec<Tile>>, rng: &mut ThreadRng, w: usize, h: usize, clear: Option<(usize, usize)>) -> (spot:
    (usize, usize))
    requires
        w > 0,
        h > 0,
        rectangular(grid_of(*tiles), w as int, h as int),
        mine_cells(grid_of(*tiles)).len() + (if clear is Some {
            9int
        } else {
            0int
        }) < w * h,
    ensures
        inside(grid_of(*tiles), spot.0 as int, spot.1 as int),
        !tiles[spot.0 as int][spot.1 as int].is_mine,
        !kept_clear(clear, spot.0 as int, spot.1 as int),
{
    let mut draws: usize = 0;
    while draws < DRAW_LIMIT
        invariant
            w > 0,
            h > 0,
            rectangular(grid_of(*tiles), w as int, h as int),
        decreases DRAW_LIMIT - draws,
    {
        let x = draw_below(rng, w);
        let y = draw_below(rng, h);
        assert(grid_of(*tiles)[x as int].len() == h);
        if !tiles[x][y].is_mine && !is_kept_clear(clear, x, y) {
            return (x, y);
        }
        draws += 1;
    }
    first_free(tiles, w, h, clear)
}

/// A matrix of `w` columns of `h` blank cells.
fn blank_tiles(w: usize, h: usize) -> (tiles: Vec<Vec<Tile>>)
    ensures
        rectangular(grid_of(tiles), w as int, h as int),
        forall|i: int, j: int| inside(grid_of(tiles), i, j) ==> #[trigger] tiles[i][j] == Tile::blank(),
{
    let mut tiles: Vec<Vec<Tile>> = Vec::new();
    let mut x: usize = 0;
    while x < w
        invariant
            x <= w,
            tiles.len() == x,
            rectangular(grid_of(tiles), x as int, h as int),
            forall|i: int, j: int| inside(grid_of(tiles), i, j) ==> #[trigger] tiles[i][j] == Tile::blank(),
        decreases w - x,
    {
        let mut column: Vec<Tile> = Vec::new();
        let mut y: usize = 0;
        while y < h
            invariant
                y <= h,
                column.len() == y,
                forall|j: int| 0 <= j < y ==> #[trigger] column[j] == Tile::blank(),
            decreases h - y,
        {
            column.push(Tile::default());
            y += 1;
        }
        let ghost before = grid_of(tiles);
        tiles.push(column);
        proof {
            let after = grid_of(tiles);
            assert forall|i: int| 0 <= i < after.len() implies (#[trigger] after[i]).len() == h by {
                if i < x {
                    assert(after[i] == before[i]);
                }
            }
            assert forall|i: int, j: int| inside(after, i, j) implies #[trigger] tiles[i][j]
                == Tile::blank() by {
                if i < x {
                    assert(after[i] == before[i]);
                    assert(inside(before, i, j));
                }
            }
        }
        x += 1;
    }
    tiles
}

/// Lays a mine on the free cell `(x, y)` and tells its neighbours.
fn place_mine(tiles: &mut Vec<Vec<Tile>>, x: usize, y: usize)
    requires
        inside(grid_of(*old(tiles)), x as int, y as int),
        !old(tiles)[x as int][y as int].is_mine,
        counts_exact(grid_of(*old(tiles))),
    ensures
        same_shape(grid_of(*old(tiles)), grid_of(*final(tiles))),
        counts_exact(grid_of(*final(tiles))),
        forall|i: int, j: int|
            inside(grid_of(*old(tiles)), i, j) ==> {
                &&& (#[trigger] final(tiles)[i][j]).state == old(tiles)[i][j].state
                &&& final(tiles)[i][j].fire == old(tiles)[i][j].fire
                &&& final(tiles)[i][j].is_mine == (old(tiles)[i][j].is_mine || (i == x && j == y))
            },
{
    let ghost g0 = grid_of(*tiles);
    tiles[x][y].is_mine = true;
    let ghost g1 = grid_of(*tiles);
    assert(same_shape(g0, g1));
    assert forall|i: int, j: int| inside(g1, i, j) implies (#[trigger] g1[i][j]).bombs_near <= 8 by {
        assert(g1[i][j].bombs_near == g0[i][j].bombs_near);
        assert(g0[i][j].bombs_near == mines_around(g0, i, j));
    }
    do_around(x, y, tiles, &CountUp);
    let ghost g2 = grid_of(*tiles);
    assert forall|i: int, j: int| inside(g2, i, j) implies (#[trigger] g2[i][j]).bombs_near == mines_around(
        g2,
        i,
        j,
    ) by {
        lemma_one_more_mine(g0, g2, x as int, y as int, i, j);
    }
}

/// Lays `mines` mines on a new matrix of `w` by `h` cells, none of them on
/// a position to keep clear.
fn lay_mines(w: usize, h: usize, mines: usize, clear: Option<(usize, usize)>) -> (tiles: Vec<Vec<Tile>>)
    requires
        w > 0,
        h > 0,
        mines + (if clear is Some {
            9int
        } else {
            0int
        }) < w * h,
    ensures
        fresh(grid_of(tiles), w as int, h as int, mines as int),
        clear_of_mines(grid_of(tiles), clear),
{
    let mut tiles = blank_tiles(w, h);
    let mut rng = rand::thread_rng();
    let mut left = mines;
    proof {
        let g = grid_of(tiles);
        lemma_cells_of_rectangle(g, w as int, h as int);
        assert(mine_cells(g) =~= Set::empty());
        assert forall|i: int, j: int| inside(g, i, j) implies (#[trigger] g[i][j]).bombs_near
            == mines_around(g, i, j) by {
            assert(tiles[i][j] == Tile::blank());
            lemma_no_mine_around(g, i, j);
        }
    }
    while left > 0
        invariant
            w > 0,
            h > 0,
            left <= mines,
            mines + (if clear is Some {
                9int
            } else {
                0int
            }) < w * h,
            fresh(grid_of(tiles), w as int, h as int, mines - left),
            clear_of_mines(grid_of(tiles), clear),
        decreases left,
    {
        let ghost g1 = grid_of(tiles);
        let (x, y) = free_spot(&tiles, &mut rng, w, h, clear);
        place_mine(&mut tiles, x, y);
        proof {
            lemma_mine_laid(g1, grid_of(tiles), x as int, y as int, w as int, h as int, mines - left, clear);
        }
        left -= 1;
    }
    tiles
}

/// A matrix that was as `lay_mines` wants it stays so when a mine is laid
/// on a free cell outside the positions to keep clear.
proof fn lemma_mine_laid(
    g1: Seq<Seq<Tile>>,
    g2: Seq<Seq<Tile>>,
    x: int,
    y: int,
    w: int,
    h: int,
    n: int,
    clear: Option<(usize, usize)>,
)
    requires
        0 <= h,
        fresh(g1, w, h, n),
        clear_of_mines(g1, clear),
        inside(g1, x, y),
        !g1[x][y].is_mine,
        !kept_clear(clear, x, y),
        same_shape(g1, g2),
        counts_exact(g2),
        forall|i: int, j: int|
            inside(g1, i, j) ==> {
                &&& (#[trigger] g2[i][j]).state == g1[i][j].state
                &&& g2[i][j].fire == g1[i][j].fire
                &&& g2[i][j].is_mine == (g1[i][j].is_mine || (i == x && j == y))
            },
    ensures
        fresh(g2, w, h, n + 1),
        clear_of_mines(g2, clear),
{
    assert(rectangular(g2, w, h)) by {
        assert forall|i: int| 0 <= i < g2.len() implies (#[trigger] g2[i]).len() == h by {
            assert(g1[i].len() == g2[i].len());
        }
    }
    lemma_cells_of_rectangle(g2, w, h);
    assert forall|i: int, j: int| inside(g2, i, j) implies (#[trigger] g2[i][j]).state
        == TileState::Hidden && !g2[i][j].fire by {
        assert(inside(g1, i, j));
        assert(g1[i][j].state == TileState::Hidden);
    }
    assert forall|i: int, j: int| inside(g2, i, j) && kept_clear(clear, i, j) implies !(
    #[trigger] g2[i][j]).is_mine by {
        assert(inside(g1, i, j));
        assert(!g1[i][j].is_mine);
    }
    assert forall|c: (int, int)| mine_cells(g2).contains(c) <==> mine_cells(g1).insert((x, y)).contains(
        c,
    ) by {
        if inside(g1, c.0, c.1) {
            assert(inside(g2, c.0, c.1));
            assert(g2[c.0][c.1].is_mine == (g1[c.0][c.1].is_mine || (c.0 == x && c.1 == y)));
        }
        if inside(g2, c.0, c.1) {
            assert(inside(g1, c.0, c.1));
        }
    }
    assert(mine_cells(g2) =~= mine_cells(g1).insert((x, y)));
    assert(!mine_cells(g1).contains((x, y)));
}

/// A matrix without mines has none around any position.
proof fn lemma_no_mine_around(g: Seq<Seq<Tile>>, x: int, y: int)
    requires
        forall|i: int, j: int| inside(g, i, j) && touching(x, y, i, j) ==> !(#[trigger] g[i][j]).is_mine,
    ensures
        mines_around(g, x, y) == 0,
{
    assert forall|i: int, j: int| touching(x, y, i, j) implies mine_at(g, i, j) == 0 by {
        if inside(g, i, j) {
            assert(!g[i][j].is_mine);
        }
    }
    assert(touching(x, y, x, y - 1) && touching(x, y, x, y + 1) && touching(x, y, x - 1, y) && touching(
        x,
        y,
        x + 1,
        y,
    ));
    assert(touching(x, y, x + 1, y + 1) && touching(x, y, x - 1, y + 1) && touching(x, y, x + 1, y - 1)
        && touching(x, y, x - 1, y - 1));
}

/// In a matrix with exact counts, a cell with no mine on it or beside it
/// is empty.
pub proof fn lemma_clear_cell_is_empty(g: Seq<Seq<Tile>>, x: usize, y: usize)
    requires
        counts_exact(g),
        clear_of_mines(g, Some((x, y))),
        inside(g, x as int, y as int),
    ensures
        g[x as int][y as int].is_empty(),
{
    assert forall|i: int, j: int| inside(g, i, j) && touching(x as int, y as int, i, j) implies !(
    #[trigger] g[i][j]).is_mine by {
        assert(kept_clear(Some((x, y)), i, j));
    }
    lemma_no_mine_around(g, x as int, y as int);
    assert(kept_clear(Some((x, y)), x as int, y as int));
}

/// A new matrix for the preset, of the dimensions that the table gives for
/// it: the preset's number of mines lie on distinct cells, every count is
/// exact, and every cell is hidden. Each mine goes to a position drawn at
/// random and drawn again while it holds a mine already; after
/// `DRAW_LIMIT` draws in vain it goes to the first free cell.
pub fn gen_tiles(difficulty: Difficulty, table_sizes: &[(usize, usize); 3]) -> (tiles: Vec<Vec<Tile>>)
    requires
        table_sizes[difficulty.rank()].0 > 0,
        table_sizes[difficulty.rank()].1 > 0,
        difficulty.mine_total() < table_sizes[difficulty.rank()].0 * table_sizes[difficulty.rank()].1,
    ensures
        fresh(
            grid_of(tiles),
            table_sizes[difficulty.rank()].0 as int,
            table_sizes[difficulty.rank()].1 as int,
            difficulty.mine_total() as int,
        ),
{
    let (max_x, max_y) = table_sizes[difficulty.index()];
    lay_mines(max_x, max_y, difficulty.mines(), None)
}

/// A new matrix like that of `gen_tiles`, but with no mine on `spot` or
/// beside it, so that `spot`, where it is a cell, is empty.
pub fn gen_tiles_sparing(difficulty: Difficulty, table_sizes: &[(usize, usize); 3], spot: (usize, usize)) -> (tiles:
    Vec<Vec<Tile>>)
    requires
        table_sizes[difficulty.rank()].0 > 0,
        table_sizes[difficulty.rank()].1 > 0,
        difficulty.mine_total() + 9 < table_sizes[difficulty.rank()].0 * table_sizes[difficulty.rank()].1,
    ensures
        fresh(
            grid_of(tiles),
            table_sizes[difficulty.rank()].0 as int,
            table_sizes[difficulty.rank()].1 as int,
            difficulty.mine_total() as int,
        ),
        clear_of_mines(grid_of(tiles), Some(spot)),
        inside(grid_of(tiles), spot.0 as int, spot.1 as int) ==> tiles[spot.0 as int][spot.1 as int].is_empty(),
{
    let (max_x, max_y) = table_sizes[difficulty.index()];
    let tiles = lay_mines(max_x, max_y, difficulty.mines(), Some(spot));
    proof {
        if inside(grid_of(tiles), spot.0 as int, spot.1 as int) {
            lemma_clear_cell_is_empty(grid_of(tiles), spot.0, spot.1);
        }
    }
    tiles
}

/// The number of mines around `(i, j)` after a mine was laid on `(x, y)`.
proof fn lemma_one_more_mine(g0: Seq<Seq<Tile>>, g2: Seq<Seq<Tile>>, x: int, y: int, i: int, j: int)
    requires
        same_shape(g0, g2),
        inside(g0, x, y),
        !g0[x][y].is_mine,
        forall|a: int, b: int|
            inside(g0, a, b) ==> (#[trigger] g2[a][b]).is_mine == (g0[a][b].is_mine || (a == x && b == y)),
    ensures
        mines_around(g2, i, j) == mines_around(g0, i, j) + if touching(x, y, i, j) {
            1int
        } else {
            0int
        },
{
    assert forall|a: int, b: int| mine_at(g2, a, b) == mine_at(g0, a, b) + if a == x && b == y {
        1int
    } else {
        0int
    } by {
        if 0 <= a < g0.len() {
            assert(g0[a].len() == g2[a].len());
        }
        if inside(g0, a, b) {
            assert(g2[a][b].is_mine == (g0[a][b].is_mine || (a == x && b == y)));
        }
    }
}

} // verus!
