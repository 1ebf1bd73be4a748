//! The flood that opens an empty region and its rim.

use vstd::prelude::*;
use vstd::set_lib::lemma_len_subset;
use crate::grid::{
    closed_cells, counts_exact, grid_of, inside, lemma_cells_are_finite, mine_at, mines_around, same_shape,
    touching,
};
use crate::tile::{Tile, TileState};
use crate::walker::{do_around, kept_around, lemma_kept_around, positions, walked, Visit};

verus! {

/// The visit of the flood: it opens the cell, and keeps it for a walk of
/// its own if the cell was closed and is empty.
pub struct Reveal;

impl Visit for Reveal {
    open spec fn admits(&self, t: Tile) -> bool {
        true
    }

    open spec fn keeps(&self, t: Tile) -> bool {
        t.state != TileState::Visible && t.is_empty()
    }

    open spec fn leaves(&self, t: Tile) -> Tile {
        t.opened()
    }

    fn visit(&self, tile: &mut Tile) -> (kept: bool) {
        if tile.state == TileState::Visible {
            false
        } else if tile.bombs_near == 0 && !tile.is_mine {
            tile.set_state(TileState::Visible);
            true
        } else {
            tile.set_state(TileState::Visible);
            false
        }
    }
}

/// The flood passes on through `(x, y)`: a closed, empty cell.
pub open spec fn spreads(g: Seq<Seq<Tile>>, x: int, y: int) -> bool {
    inside(g, x, y) && g[x][y].state != TileState::Visible && g[x][y].is_empty()
}

/// The flood from `(sx, sy)` walks round `(x, y)` after at most `n` steps
/// from cell to neighbouring cell, each but the first a cell that the flood
/// passes on through.
pub open spec fn reached_within(g: Seq<Seq<Tile>>, sx: int, sy: int, n: nat, x: int, y: int) -> bool
    decreases n,
{
    if n == 0 {
        x == sx && y == sy
    } else {
        let m = (n - 1) as nat;
        reached_within(g, sx, sy, m, x, y) || (spreads(g, x, y) && (reached_within(g, sx, sy, m, x, y - 1)
            || reached_within(g, sx, sy, m, x, y + 1) || reached_within(g, sx, sy, m, x - 1, y)
            || reached_within(g, sx, sy, m, x + 1, y) || reached_within(g, sx, sy, m, x + 1, y + 1)
            || reached_within(g, sx, sy, m, x - 1, y + 1) || reached_within(g, sx, sy, m, x + 1, y - 1)
            || reached_within(g, sx, sy, m, x - 1, y - 1)))
    }
}

/// The flood from `(sx, sy)` walks round `(x, y)`.
pub open spec fn reached(g: Seq<Seq<Tile>>, sx: int, sy: int, x: int, y: int) -> bool {
    exists|n: nat| reached_within(g, sx, sy, n, x, y)
}

/// The flood from `(sx, sy)` opens `(x, y)`: it walks round a position
/// beside it.
pub open spec fn flooded(g: Seq<Seq<Tile>>, sx: int, sy: int, x: int, y: int) -> bool {
    exists|i: int, j: int| touching(i, j, x, y) && #[trigger] reached(g, sx, sy, i, j)
}

/// `after` is the matrix `g` once the flood from `(sx, sy)` has run: the
/// cells that the flood opens are open, and nothing else has changed.
pub open spec fn flood_of(g: Seq<Seq<Tile>>, sx: int, sy: int, after: Seq<Seq<Tile>>) -> bool {
    &&& same_shape(g, after)
    &&& forall|x: int, y: int|
        inside(g, x, y) ==> #[trigger] after[x][y] == if flooded(g, sx, sy, x, y) {
            g[x][y].opened()
        } else {
            g[x][y]
        }
}

/// The state of a flood under way: `now` is the matrix, the flood has yet
/// to walk round the positions of `around`, and it has walked round those
/// of `done`.
spec fn flooding(
    g: Seq<Seq<Tile>>,
    sx: int,
    sy: int,
    now: Seq<Seq<Tile>>,
    around: Seq<(int, int)>,
    done: Set<(int, int)>,
) -> bool {
    &&& same_shape(g, now)
    &&& forall|x: int, y: int|
        inside(g, x, y) ==> #[trigger] now[x][y] == g[x][y] || (now[x][y] == g[x][y].opened() && flooded(
            g,
            sx,
            sy,
            x,
            y,
        ))
    &&& forall|k: int| 0 <= k < around.len() ==> reached(g, sx, sy, (#[trigger] around[k]).0, around[k].1)
    &&& forall|c: (int, int)| #[trigger] done.contains(c) ==> reached(g, sx, sy, c.0, c.1)
    &&& forall|c: (int, int), x: int, y: int|
        #[trigger] done.contains(c) && inside(g, x, y) && touching(c.0, c.1, x, y) ==> (
        #[trigger] now[x][y]).state == TileState::Visible
    &&& done.contains((sx, sy)) || around.contains((sx, sy))
    &&& forall|x: int, y: int|
        spreads(g, x, y) && (#[trigger] now[x][y]).state == TileState::Visible ==> done.contains((x, y))
            || around.contains((x, y))
}

/// A position beside `(x, y)` that the flood walks round after at most `m`
/// steps, where there is one.
spec fn came_from(g: Seq<Seq<Tile>>, sx: int, sy: int, m: nat, x: int, y: int) -> (int, int) {
    if reached_within(g, sx, sy, m, x, y - 1) {
        (x, y - 1)
    } else if reached_within(g, sx, sy, m, x, y + 1) {
        (x, y + 1)
    } else if reached_within(g, sx, sy, m, x - 1, y) {
        (x - 1, y)
    } else if reached_within(g, sx, sy, m, x + 1, y) {
        (x + 1, y)
    } else if reached_within(g, sx, sy, m, x + 1, y + 1) {
        (x + 1, y + 1)
    } else if reached_within(g, sx, sy, m, x - 1, y + 1) {
        (x - 1, y + 1)
    } else if reached_within(g, sx, sy, m, x + 1, y - 1) {
        (x + 1, y - 1)
    } else {
        (x - 1, y - 1)
    }
}

proof fn lemma_reached_next(g: Seq<Seq<Tile>>, sx: int, sy: int, i: int, j: int, x: int, y: int)
    requires
        reached(g, sx, sy, i, j),
        touching(i, j, x, y),
        spreads(g, x, y),
    ensures
        reached(g, sx, sy, x, y),
{
    let n = choose|n: nat| reached_within(g, sx, sy, n, i, j);
    let next = (n + 1) as nat;
    assert((next - 1) as nat == n);
    assert(reached_within(g, sx, sy, next, x, y));
}

/// A flood sets out with the one position it starts from to walk round.
proof fn lemma_flood_start(g: Seq<Seq<Tile>>, sx: int, sy: int)
    ensures
        flooding(g, sx, sy, g, seq![(sx, sy)], Set::empty()),
{
    let around = seq![(sx, sy)];
    assert(reached_within(g, sx, sy, 0, sx, sy));
    assert(around[0] == (sx, sy));
    assert(around.contains((sx, sy)));
}

/// One walk of the flood, round the last position of `around`.
proof fn lemma_flood_step(
    g: Seq<Seq<Tile>>,
    sx: int,
    sy: int,
    now: Seq<Seq<Tile>>,
    around: Seq<(int, int)>,
    done: Set<(int, int)>,
    next: Seq<Seq<Tile>>,
    found: Seq<(int, int)>,
)
    requires
        flooding(g, sx, sy, now, around, done),
        around.len() > 0,
        walked(now, around.last().0, around.last().1, Reveal, next),
        found == kept_around(now, around.last().0, around.last().1, Reveal),
    ensures
        flooding(g, sx, sy, next, around.drop_last() + found, done.insert(around.last())),
        closed_cells(next).subset_of(closed_cells(now)),
        found.len() > 0 ==> closed_cells(now).contains(found[0]) && !closed_cells(next).contains(found[0]),
{
    let c = around.last();
    let rest = around.drop_last();
    let around2 = rest + found;
    let done2 = done.insert(c);
    lemma_kept_around(now, c.0, c.1, Reveal);
    assert(reached(g, sx, sy, c.0, c.1)) by {
        assert(around[around.len() - 1] == c);
    }
    assert(same_shape(g, next)) by {
        assert forall|x: int| 0 <= x < g.len() implies (#[trigger] g[x]).len() == next[x].len() by {
            assert(g[x].len() == now[x].len());
            assert(now[x].len() == next[x].len());
        }
    }
    assert forall|x: int, y: int| inside(g, x, y) implies #[trigger] next[x][y] == g[x][y] || (next[x][y]
        == g[x][y].opened() && flooded(g, sx, sy, x, y)) by {
        assert(inside(now, x, y));
        assert(now[x][y] == g[x][y] || (now[x][y] == g[x][y].opened() && flooded(g, sx, sy, x, y)));
        if touching(c.0, c.1, x, y) {
            assert(next[x][y] == now[x][y].opened());
            assert(flooded(g, sx, sy, x, y));
        } else {
            assert(next[x][y] == now[x][y]);
        }
    }
    assert forall|k: int| 0 <= k < around2.len() implies reached(
        g,
        sx,
        sy,
        (#[trigger] around2[k]).0,
        around2[k].1,
    ) by {
        if k < rest.len() {
            assert(around2[k] == around[k]);
        } else {
            let p = found[k - rest.len()];
            assert(around2[k] == p);
            assert(found.contains(p));
            assert(kept_around(now, c.0, c.1, Reveal).contains((p.0, p.1)));
            assert(inside(now, p.0, p.1) && touching(c.0, c.1, p.0, p.1) && Reveal.keeps(now[p.0][p.1]));
            assert(inside(g, p.0, p.1));
            assert(now[p.0][p.1] == g[p.0][p.1]);
            lemma_reached_next(g, sx, sy, c.0, c.1, p.0, p.1);
        }
    }
    assert forall|d: (int, int)| #[trigger] done2.contains(d) implies reached(g, sx, sy, d.0, d.1) by {}
    assert forall|d: (int, int), x: int, y: int| #[trigger]
        done2.contains(d) && inside(g, x, y) && touching(d.0, d.1, x, y) implies (#[trigger] next[x][y]).state
        == TileState::Visible by {
        assert(inside(now, x, y));
        if d == c {
            assert(next[x][y] == now[x][y].opened());
        } else {
            assert(done.contains(d));
            assert(now[x][y].state == TileState::Visible);
            assert(next[x][y] == now[x][y] || next[x][y] == now[x][y].opened());
        }
    }
    assert(done2.contains((sx, sy)) || around2.contains((sx, sy))) by {
        if !done.contains((sx, sy)) {
            let k = choose|k: int| 0 <= k < around.len() && around[k] == (sx, sy);
            if k < rest.len() {
                assert(around2[k] == (sx, sy));
            } else {
                assert(c == (sx, sy));
            }
        }
    }
    assert forall|x: int, y: int|
        spreads(g, x, y) && (#[trigger] next[x][y]).state == TileState::Visible implies done2.contains(
        (x, y),
    ) || around2.contains((x, y)) by {
        assert(inside(now, x, y));
        assert(now[x][y] == g[x][y] || (now[x][y] == g[x][y].opened() && flooded(g, sx, sy, x, y)));
        if now[x][y].state == TileState::Visible {
            if !done.contains((x, y)) {
                let k = choose|k: int| 0 <= k < around.len() && around[k] == (x, y);
                if k < rest.len() {
                    assert(around2[k] == (x, y));
                } else {
                    assert(c == (x, y));
                }
            }
        } else {
            assert(now[x][y] == g[x][y]);
            assert(touching(c.0, c.1, x, y));
            assert(Reveal.keeps(now[x][y]));
            assert(found.contains((x, y)));
            let k = choose|k: int| 0 <= k < found.len() && found[k] == (x, y);
            assert(around2[rest.len() + k] == (x, y));
        }
    }
    assert forall|p: (int, int)| closed_cells(next).contains(p) implies closed_cells(now).contains(p) by {
        assert(inside(now, p.0, p.1));
        assert(next[p.0][p.1] == now[p.0][p.1] || next[p.0][p.1] == now[p.0][p.1].opened());
    }
    if found.len() > 0 {
        let p = found[0];
        assert(found.contains(p));
        assert(kept_around(now, c.0, c.1, Reveal).contains((p.0, p.1)));
        assert(next[p.0][p.1] == now[p.0][p.1].opened());
    }
}

/// Whatever the flood walks round has been walked round once no position
/// is left to walk round.
proof fn lemma_flood_closed(
    g: Seq<Seq<Tile>>,
    sx: int,
    sy: int,
    now: Seq<Seq<Tile>>,
    done: Set<(int, int)>,
    n: nat,
    x: int,
    y: int,
)
    requires
        flooding(g, sx, sy, now, Seq::empty(), done),
        reached_within(g, sx, sy, n, x, y),
    ensures
        done.contains((x, y)),
    decreases n,
{
    let none = Seq::<(int, int)>::empty();
    assert(forall|p: (int, int)| !none.contains(p));
    if n == 0 {
    } else if reached_within(g, sx, sy, (n - 1) as nat, x, y) {
        lemma_flood_closed(g, sx, sy, now, done, (n - 1) as nat, x, y);
    } else {
        let m = (n - 1) as nat;
        let (i, j) = came_from(g, sx, sy, m, x, y);
        lemma_flood_closed(g, sx, sy, now, done, m, i, j);
        assert(done.contains((i, j)) && inside(g, x, y) && touching(i, j, x, y));
        assert(now[x][y].state == TileState::Visible);
    }
}

/// A flood with no position left to walk round has run.
proof fn lemma_flood_over(g: Seq<Seq<Tile>>, sx: int, sy: int, now: Seq<Seq<Tile>>, done: Set<(int, int)>)
    requires
        flooding(g, sx, sy, now, Seq::empty(), done),
    ensures
        flood_of(g, sx, sy, now),
{
    assert forall|x: int, y: int| inside(g, x, y) implies #[trigger] now[x][y] == if flooded(g, sx, sy, x, y) {
        g[x][y].opened()
    } else {
        g[x][y]
    } by {
        assert(now[x][y] == g[x][y] || (now[x][y] == g[x][y].opened() && flooded(g, sx, sy, x, y)));
        if flooded(g, sx, sy, x, y) {
            let (i, j) = choose|i: int, j: int| touching(i, j, x, y) && #[trigger] reached(g, sx, sy, i, j);
            let n = choose|n: nat| reached_within(g, sx, sy, n, i, j);
            lemma_flood_closed(g, sx, sy, now, done, n, i, j);
            assert(done.contains((i, j)));
            assert(now[x][y].state == TileState::Visible);
        }
    }
}

/// Opens what the flood from `(x, y)` opens: the flood walks round `(x, y)`
/// and opens every cell beside it, then walks round each cell that it has
/// opened and that was closed and is empty, and so on until no such cell is
/// left. The position `(x, y)` itself is opened only if the flood comes
/// back to it.
pub fn flood_fill(tiles: &mut Vec<Vec<Tile>>, x: usize, y: usize)
    ensures
        flood_of(grid_of(*old(tiles)), x as int, y as int, grid_of(*final(tiles))),
{
    let ghost g = grid_of(*tiles);
    let ghost mut done: Set<(int, int)> = Set::empty();
    let mut around: Vec<(usize, usize)> = Vec::new();
    around.push((x, y));
    proof {
        assert(positions(around@) =~= seq![(x as int, y as int)]);
        lemma_flood_start(g, x as int, y as int);
        assert forall|i: int| 0 <= i < g.len() implies (#[trigger] g[i]).len() <= usize::MAX by {
            assert(g[i].len() == tiles[i].len());
        }
        lemma_cells_are_finite(g, usize::MAX as int);
    }
    while around.len() > 0
        invariant
            forall|i: int| 0 <= i < g.len() ==> (#[trigger] g[i]).len() <= usize::MAX,
            flooding(g, x as int, y as int, grid_of(*tiles), positions(around@), done),
            closed_cells(grid_of(*tiles)).finite(),
        decreases closed_cells(grid_of(*tiles)).len(), around.len(),
    {
        let ghost now = grid_of(*tiles);
        let ghost pending = positions(around@);
        let (cx, cy) = around.pop().unwrap();
        let ghost rest = positions(around@);
        let mut found = do_around(cx, cy, tiles, &Reveal);
        let ghost kept = positions(found@);
        around.append(&mut found);
        proof {
            let next = grid_of(*tiles);
            assert(pending.last() == (cx as int, cy as int));
            assert(rest =~= pending.drop_last());
            assert(positions(around@) =~= rest + kept);
            lemma_flood_step(g, x as int, y as int, now, pending, done, next, kept);
            done = done.insert((cx as int, cy as int));
            assert forall|i: int| 0 <= i < next.len() implies (#[trigger] next[i]).len() <= usize::MAX by {
                assert(g[i].len() == next[i].len());
            }
            lemma_cells_are_finite(next, usize::MAX as int);
            lemma_len_subset(closed_cells(next), closed_cells(now));
            if kept.len() > 0 {
                closed_cells(next).lemma_subset_not_in_lt(closed_cells(now), kept[0]);
            }
        }
    }
    proof {
        assert(positions(around@) =~= Seq::empty());
        lemma_flood_over(g, x as int, y as int, grid_of(*tiles), done);
    }
}

/// In a matrix with exact counts, the flood from a cell that has no mine
/// beside it opens no mine.
pub proof fn flood_spares_mines(g: Seq<Seq<Tile>>, sx: int, sy: int)
    requires
        counts_exact(g),
        inside(g, sx, sy),
        g[sx][sy].bombs_near == 0,
    ensures
        forall|x: int, y: int| inside(g, x, y) && #[trigger] flooded(g, sx, sy, x, y) ==> !g[x][y].is_mine,
{
    assert forall|x: int, y: int| inside(g, x, y) && #[trigger] flooded(g, sx, sy, x, y) implies !g[x][y].is_mine by {
        let (i, j) = choose|i: int, j: int| touching(i, j, x, y) && #[trigger] reached(g, sx, sy, i, j);
        let n = choose|n: nat| reached_within(g, sx, sy, n, i, j);
        lemma_reached_is_empty(g, sx, sy, n, i, j);
        assert(g[i][j].bombs_near == mines_around(g, i, j));
        lemma_none_around(g, i, j, x, y);
    }
}

/// Where no mine lies around a position, none lies on a cell beside it.
proof fn lemma_none_around(g: Seq<Seq<Tile>>, i: int, j: int, x: int, y: int)
    requires
        mines_around(g, i, j) == 0,
        touching(i, j, x, y),
    ensures
        mine_at(g, x, y) == 0,
{
}

proof fn lemma_reached_is_empty(g: Seq<Seq<Tile>>, sx: int, sy: int, n: nat, x: int, y: int)
    requires
        inside(g, sx, sy),
        g[sx][sy].bombs_near == 0,
        reached_within(g, sx, sy, n, x, y),
    ensures
        inside(g, x, y),
        g[x][y].bombs_near == 0,
    decreases n,
{
    if n > 0 && reached_within(g, sx, sy, (n - 1) as nat, x, y) {
        lemma_reached_is_empty(g, sx, sy, (n - 1) as nat, x, y);
    }
}

/// The region that the flood walks round is as large as it can be: it
/// holds the cell the flood starts from, and with a cell every closed,
/// empty cell beside it. The flood opens just the cells beside the region.
pub proof fn flood_is_maximal(g: Seq<Seq<Tile>>, sx: int, sy: int)
    ensures
        reached(g, sx, sy, sx, sy),
        forall|i: int, j: int, x: int, y: int|
            #[trigger] reached(g, sx, sy, i, j) && touching(i, j, x, y) && #[trigger] spreads(g, x, y) ==> reached(
                g,
                sx,
                sy,
                x,
                y,
            ),
        forall|i: int, j: int, x: int, y: int|
            #[trigger] reached(g, sx, sy, i, j) && #[trigger] touching(i, j, x, y) ==> flooded(g, sx, sy, x, y),
        forall|x: int, y: int|
            #[trigger] reached(g, sx, sy, x, y) ==> (x == sx && y == sy) || (spreads(g, x, y) && flooded(
                g,
                sx,
                sy,
                x,
                y,
            )),
{
    assert(reached_within(g, sx, sy, 0, sx, sy));
    assert forall|i: int, j: int, x: int, y: int|
        #[trigger] reached(g, sx, sy, i, j) && touching(i, j, x, y) && #[trigger] spreads(
            g,
            x,
            y,
        ) implies reached(g, sx, sy, x, y) by {
        lemma_reached_next(g, sx, sy, i, j, x, y);
    }
    assert forall|x: int, y: int| #[trigger] reached(g, sx, sy, x, y) implies (x == sx && y == sy) || (spreads(
        g,
        x,
        y,
    ) && flooded(g, sx, sy, x, y)) by {
        let n = choose|n: nat| reached_within(g, sx, sy, n, x, y);
        lemma_reached_from(g, sx, sy, n, x, y);
    }
}

proof fn lemma_reached_from(g: Seq<Seq<Tile>>, sx: int, sy: int, n: nat, x: int, y: int)
    requires
        reached_within(g, sx, sy, n, x, y),
    ensures
        (x == sx && y == sy) || (spreads(g, x, y) && flooded(g, sx, sy, x, y)),
    decreases n,
{
    if n == 0 {
    } else if reached_within(g, sx, sy, (n - 1) as nat, x, y) {
        lemma_reached_from(g, sx, sy, (n - 1) as nat, x, y);
    } else {
        let m = (n - 1) as nat;
        let (i, j) = came_from(g, sx, sy, m, x, y);
        assert(reached_within(g, sx, sy, m, i, j));
        assert(reached(g, sx, sy, i, j));
        assert(touching(i, j, x, y));
    }
}

} // verus!
