//! One tick of the loss animation on the cell matrix.

use vstd::prelude::*;
use crate::circle::{
    arc_of, as_points, circle_perimeter, circle_points_of, in_reach, perimeter_of, REACH,
};
use crate::clicks::fire_cleared;
use crate::grid::{grid_of, inside, rectangular, same_shape};
use crate::sweep::{douse, show_mines, ShowMine};
use crate::tile::{Tile, TileState};
use crate::walker::Visit;

verus! {

/// A position of the ring is a cell.
pub open spec fn ring_touches(g: Seq<Seq<Tile>>, ring: Seq<(int, int)>) -> bool {
    exists|k: int| 0 <= k < ring.len() && inside(g, (#[trigger] ring[k]).0, ring[k].1)
}

/// The cell after a tick: a mine on the ring is open, and so is every mine
/// when the ring meets no cell; any other cell on the ring is lit, and no
/// cell off the ring is.
pub open spec fn ring_tile(t: Tile, on_ring: bool, touches: bool) -> Tile {
    Tile {
        fire: on_ring && !t.is_mine,
        state: if t.is_mine && (on_ring || !touches) {
            TileState::Visible
        } else {
            t.state
        },
        ..t
    }
}

/// `after` is the matrix `g` after the tick that draws `ring`.
pub open spec fn ring_drawn(g: Seq<Seq<Tile>>, ring: Seq<(int, int)>, after: Seq<Seq<Tile>>) -> bool {
    &&& same_shape(g, after)
    &&& forall|i: int, j: int|
        inside(g, i, j) ==> #[trigger] after[i][j] == ring_tile(
            g[i][j],
            ring.contains((i, j)),
            ring_touches(g, ring),
        )
}

/// The cell as the ring passes over it: a mine is opened, any other cell
/// lit.
pub open spec fn passed_over(t: Tile) -> Tile {
    if t.is_mine {
        t.opened()
    } else {
        Tile { fire: true, ..t }
    }
}

/// No position that a step of the method marks is a cell of a matrix of
/// `w` by `h` cells round a cell of it, where the step is `m` or more
/// cells away and `m` is no less than `w` and `h`.
proof fn lemma_points_outside(g: Seq<Seq<Tile>>, w: int, h: int, cx: int, cy: int, x: int, y: int, m: int)
    requires
        rectangular(g, w, h),
        inside(g, cx, cy),
        w <= m,
        h <= m,
        0 <= x <= y,
        m <= y,
    ensures
        !ring_touches(g, circle_points_of(cx, cy, x, y)),
{
    let ring = circle_points_of(cx, cy, x, y);
    assert forall|k: int| 0 <= k < ring.len() implies !inside(g, (#[trigger] ring[k]).0, ring[k].1) by {
        let p = ring[k];
        assert((p.1 == cy + y || p.1 == cy - y) || (p.0 == cx + y || p.0 == cx - y));
        if 0 <= p.0 < g.len() {
            assert(g[p.0].len() == h);
        }
    }
}

/// No position that the method marks after a step is a cell, where the
/// step and all after it are far enough away.
proof fn lemma_arc_outside(g: Seq<Seq<Tile>>, w: int, h: int, cx: int, cy: int, x: int, y: int, p: int, m: int)
    requires
        rectangular(g, w, h),
        inside(g, cx, cy),
        w <= m,
        h <= m,
        0 <= x,
        2 * m <= x + y,
    ensures
        !ring_touches(g, arc_of(cx, cy, x, y, p)),
    decreases y - x + 1,
{
    let ring = arc_of(cx, cy, x, y, p);
    if x < y {
        let x1 = x + 1;
        let y1 = if p < 0 {
            y
        } else {
            y - 1
        };
        let p1 = p + 4 * (2 * (if p < 0 {
            x1
        } else {
            x1 - y1
        }) + 1);
        let step = circle_points_of(cx, cy, x1, y1);
        let rest = arc_of(cx, cy, x1, y1, p1);
        if x1 <= y1 {
            lemma_points_outside(g, w, h, cx, cy, x1, y1, m);
        } else {
            assert(step =~= Seq::empty());
        }
        lemma_arc_outside(g, w, h, cx, cy, x1, y1, p1, m);
        assert(ring == step + rest);
        if ring_touches(g, ring) {
            let k = choose|k: int| 0 <= k < ring.len() && inside(g, (#[trigger] ring[k]).0, ring[k].1);
            if k < step.len() {
                assert(step[k] == ring[k]);
            } else {
                assert(rest[k - step.len()] == ring[k]);
            }
        }
    } else {
        assert(ring =~= Seq::empty());
    }
}

/// A ring round a cell of a matrix of `w` by `h` cells meets no cell once
/// its radius is twice the larger of `w` and `h`, or more.
pub proof fn ring_leaves_the_matrix(g: Seq<Seq<Tile>>, w: int, h: int, cx: int, cy: int, quarters: int)
    requires
        rectangular(g, w, h),
        inside(g, cx, cy),
        quarters >= 8 * w,
        quarters >= 8 * h,
    ensures
        !ring_touches(g, perimeter_of(cx, cy, quarters)),
{
    let m = if w <= h {
        h
    } else {
        w
    };
    let r = quarters / 4;
    let first = circle_points_of(cx, cy, 0, r);
    let rest = arc_of(cx, cy, 0, r, 5 - quarters);
    let ring = perimeter_of(cx, cy, quarters);
    assert(g[cx].len() == h);
    lemma_points_outside(g, w, h, cx, cy, 0, r, m);
    lemma_arc_outside(g, w, h, cx, cy, 0, r, 5 - quarters, m);
    if ring_touches(g, ring) {
        let k = choose|k: int| 0 <= k < ring.len() && inside(g, (#[trigger] ring[k]).0, ring[k].1);
        if k < first.len() {
            assert(first[k] == ring[k]);
        } else {
            assert(rest[k - first.len()] == ring[k]);
        }
    }
}

/// Marks the cell `(x, y)` as the ring passes over it, and says whether
/// `(x, y)` is a cell.
pub fn do_game_over_animation_tile(tiles: &mut Vec<Vec<Tile>>, x: usize, y: usize) -> (hit: bool)
    ensures
        hit == inside(grid_of(*old(tiles)), x as int, y as int),
        same_shape(grid_of(*old(tiles)), grid_of(*final(tiles))),
        forall|i: int, j: int|
            inside(grid_of(*old(tiles)), i, j) ==> #[trigger] final(tiles)[i][j] == if i == x && j == y {
                passed_over(old(tiles)[i][j])
            } else {
                old(tiles)[i][j]
            },
{
    if x < tiles.len() && y < tiles[x].len() {
        if tiles[x][y].is_mine() {
            tiles[x][y].set_state(TileState::Visible);
        } else {
            tiles[x][y].fire = true;
        }
        true
    } else {
        false
    }
}

/// The state of a tick after the first `n` positions of the ring.
spec fn ring_partly(g: Seq<Seq<Tile>>, ring: Seq<(int, int)>, n: int, now: Seq<Seq<Tile>>, updated: bool) -> bool {
    &&& same_shape(g, now)
    &&& forall|i: int, j: int|
        inside(g, i, j) ==> #[trigger] now[i][j] == ring_tile(g[i][j], ring.take(n).contains((i, j)), true)
    &&& updated == ring_touches(g, ring.take(n))
}

proof fn lemma_ring_next(
    g: Seq<Seq<Tile>>,
    ring: Seq<(int, int)>,
    n: int,
    now: Seq<Seq<Tile>>,
    updated: bool,
    next: Seq<Seq<Tile>>,
)
    requires
        0 <= n < ring.len(),
        ring_partly(g, ring, n, now, updated),
        same_shape(now, next),
        forall|i: int, j: int|
            inside(now, i, j) ==> #[trigger] next[i][j] == if i == ring[n].0 && j == ring[n].1 {
                passed_over(now[i][j])
            } else {
                now[i][j]
            },
    ensures
        ring_partly(g, ring, n + 1, next, updated || inside(g, ring[n].0, ring[n].1)),
{
    let before = ring.take(n);
    let after = ring.take(n + 1);
    assert(after =~= before.push(ring[n]));
    assert forall|p: (int, int)| after.contains(p) <==> before.contains(p) || p == ring[n] by {
        if before.contains(p) {
            let k = choose|k: int| 0 <= k < before.len() && before[k] == p;
            assert(after[k] == p);
        }
        if p == ring[n] {
            assert(after[n] == p);
        }
        if after.contains(p) {
            let k = choose|k: int| 0 <= k < after.len() && after[k] == p;
            if k < n {
                assert(before[k] == p);
            }
        }
    }
    assert(same_shape(g, next)) by {
        assert forall|i: int| 0 <= i < g.len() implies (#[trigger] g[i]).len() == next[i].len() by {
            assert(g[i].len() == now[i].len());
        }
    }
    assert forall|i: int, j: int| inside(g, i, j) implies #[trigger] next[i][j] == ring_tile(
        g[i][j],
        after.contains((i, j)),
        true,
    ) by {
        assert(inside(now, i, j));
        assert(now[i][j] == ring_tile(g[i][j], before.contains((i, j)), true));
        assert(after.contains((i, j)) <==> before.contains((i, j)) || (i, j) == ring[n]);
    }
    let hit = inside(g, ring[n].0, ring[n].1);
    if ring_touches(g, after) {
        let k = choose|k: int| 0 <= k < after.len() && inside(g, (#[trigger] after[k]).0, after[k].1);
        if k < n {
            assert(before[k] == after[k]);
            assert(ring_touches(g, before));
        } else {
            assert(after[k] == ring[n]);
        }
    }
    if ring_touches(g, before) {
        let k = choose|k: int| 0 <= k < before.len() && inside(g, (#[trigger] before[k]).0, before[k].1);
        assert(after[k] == before[k]);
    }
    if hit {
        assert(after[n] == ring[n]);
    }
}

/// Draws the ring round `center` whose radius is `quarters` quarters of a
/// cell: puts out the light of the ring before, opens the mines on the ring
/// and lights its other cells; where the ring meets no cell, opens every
/// mine.
pub fn draw_ring(tiles: &mut Vec<Vec<Tile>>, center: (usize, usize), quarters: u32)
    requires
        center.0 <= REACH,
        center.1 <= REACH,
    ensures
        ring_drawn(
            grid_of(*old(tiles)),
            perimeter_of(center.0 as int, center.1 as int, quarters as int),
            grid_of(*final(tiles)),
        ),
{
    let ghost g = grid_of(*tiles);
    let ghost ring = perimeter_of(center.0 as int, center.1 as int, quarters as int);
    douse(tiles);
    let ghost dark = grid_of(*tiles);

    let mut updated = false;

    let points = circle_perimeter(center, quarters);
    let mut n: usize = 0;
    proof {
        assert(ring.take(0) =~= Seq::empty());
        assert(as_points(points@).len() == points@.len());
    }
    while n < points.len()
        invariant
            n <= points.len(),
            ring == as_points(points@),
            in_reach(points@),
            fire_cleared(g, dark),
            ring_partly(dark, ring, n as int, grid_of(*tiles), updated),
        decreases points.len() - n,
    {
        let (px, py) = points[n];
        let ghost now = grid_of(*tiles);
        let ghost was = updated;
        assert(ring[n as int] == (px as int, py as int));
        if px < 0 || py < 0 {
            proof {
                lemma_ring_next(dark, ring, n as int, now, updated, now);
            }
        } else {
            let (x, y) = (px as usize, py as usize);
            if do_game_over_animation_tile(tiles, x, y) {
                updated = true;
            }
            proof {
                lemma_ring_next(dark, ring, n as int, now, was, grid_of(*tiles));
            }
        }
        n += 1;
    }
    assert(ring.take(n as int) =~= ring);
    if !updated {
        let ghost now = grid_of(*tiles);
        show_mines(tiles);
        proof {
            let last = grid_of(*tiles);
            assert forall|i: int, j: int| inside(g, i, j) implies #[trigger] last[i][j] == ring_tile(
                g[i][j],
                ring.contains((i, j)),
                ring_touches(g, ring),
            ) by {
                assert(inside(dark, i, j) && inside(now, i, j));
                assert(last[i][j] == ShowMine.leaves(now[i][j]));
                if ring.contains((i, j)) {
                    let k = choose|k: int| 0 <= k < ring.len() && ring[k] == (i, j);
                    assert(inside(dark, ring[k].0, ring[k].1));
                }
            }
        }
    }
    proof {
        let last = grid_of(*tiles);
        assert(ring_touches(g, ring) == ring_touches(dark, ring)) by {
            if ring_touches(g, ring) {
                let k = choose|k: int| 0 <= k < ring.len() && inside(g, (#[trigger] ring[k]).0, ring[k].1);
                assert(inside(dark, ring[k].0, ring[k].1));
            }
            if ring_touches(dark, ring) {
                let k = choose|k: int| 0 <= k < ring.len() && inside(dark, (#[trigger] ring[k]).0, ring[k].1);
                assert(inside(g, ring[k].0, ring[k].1));
            }
        }
        assert(same_shape(g, last)) by {
            assert forall|i: int| 0 <= i < g.len() implies (#[trigger] g[i]).len() == last[i].len() by {
                assert(g[i].len() == dark[i].len());
            }
        }
        assert forall|i: int, j: int| inside(g, i, j) implies #[trigger] last[i][j] == ring_tile(
            g[i][j],
            ring.contains((i, j)),
            ring_touches(g, ring),
        ) by {
            assert(inside(dark, i, j));
        }
    }
}

} // verus!
