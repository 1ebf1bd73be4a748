//! The walk round a cell: one visit to each of its up to eight neighbours.

use vstd::prelude::*;
use crate::grid::{grid_of, inside, same_shape, touching};
use crate::tile::Tile;

verus! {

/// What a walk does at each neighbour: it may change the cell, and it says
/// whether the cell is to be reported. Both depend on the cell alone.
pub trait Visit {
    /// The cells that the visit can be made to.
    spec fn admits(&self, t: Tile) -> bool;

    /// Whether a cell is reported.
    spec fn keeps(&self, t: Tile) -> bool;

    /// The cell as the visit leaves it.
    spec fn leaves(&self, t: Tile) -> Tile;

    fn visit(&self, tile: &mut Tile) -> (kept: bool)
        requires
            self.admits(*old(tile)),
        ensures
            kept == self.keeps(*old(tile)),
            *final(tile) == self.leaves(*old(tile)),
    ;
}

/// The report on one position: the position itself if it is a cell that the
/// visit keeps, else nothing.
pub open spec fn kept_at<V: Visit>(g: Seq<Seq<Tile>>, i: int, j: int, func: V) -> Seq<(int, int)> {
    if inside(g, i, j) && func.keeps(g[i][j]) {
        seq![(i, j)]
    } else {
        Seq::empty()
    }
}

/// The report of a walk round `(x, y)`: the kept neighbours in the order in
/// which the walk visits them.
pub open spec fn kept_around<V: Visit>(g: Seq<Seq<Tile>>, x: int, y: int, func: V) -> Seq<(int, int)> {
    kept_at(g, x, y - 1, func) + kept_at(g, x, y + 1, func) + kept_at(g, x - 1, y, func) + kept_at(
        g,
        x + 1,
        y,
        func,
    ) + kept_at(g, x + 1, y + 1, func) + kept_at(g, x - 1, y + 1, func) + kept_at(
        g,
        x + 1,
        y - 1,
        func,
    ) + kept_at(g, x - 1, y - 1, func)
}

/// The matrix after a walk round `(x, y)`: each neighbour as the visit
/// leaves it, every other cell as it was.
pub open spec fn walked<V: Visit>(g: Seq<Seq<Tile>>, x: int, y: int, func: V, after: Seq<Seq<Tile>>) -> bool {
    &&& same_shape(g, after)
    &&& forall|i: int, j: int|
        inside(g, i, j) ==> #[trigger] after[i][j] == if touching(x, y, i, j) {
            func.leaves(g[i][j])
        } else {
            g[i][j]
        }
}

/// The positions as pairs of integers.
pub open spec fn positions(v: Seq<(usize, usize)>) -> Seq<(int, int)> {
    v.map_values(|c: (usize, usize)| (c.0 as int, c.1 as int))
}

/// The coordinate that an optional index stands for; a missing one stands
/// for a coordinate that no cell has.
pub open spec fn coordinate(index: Option<usize>) -> int {
    match index {
        Some(v) => v as int,
        None => -1,
    }
}

/// The `n`-th position of the walk round `(x, y)`.
pub open spec fn walk_step(x: int, y: int, n: int) -> (int, int) {
    if n == 0 {
        (x, y - 1)
    } else if n == 1 {
        (x, y + 1)
    } else if n == 2 {
        (x - 1, y)
    } else if n == 3 {
        (x + 1, y)
    } else if n == 4 {
        (x + 1, y + 1)
    } else if n == 5 {
        (x - 1, y + 1)
    } else if n == 6 {
        (x + 1, y - 1)
    } else {
        (x - 1, y - 1)
    }
}

/// `(i, j)` is among the first `n` positions of the walk round `(x, y)`.
spec fn walked_over(x: int, y: int, n: int, i: int, j: int) -> bool {
    exists|k: int| 0 <= k < n && k < 8 && #[trigger] walk_step(x, y, k) == (i, j)
}

/// The report of the first `n` visits of the walk round `(x, y)`.
spec fn kept_so_far<V: Visit>(g: Seq<Seq<Tile>>, x: int, y: int, func: V, n: int) -> Seq<(int, int)>
    decreases n,
{
    if n <= 0 {
        Seq::empty()
    } else {
        kept_so_far(g, x, y, func, n - 1) + kept_at(
            g,
            walk_step(x, y, n - 1).0,
            walk_step(x, y, n - 1).1,
            func,
        )
    }
}

/// The state of a walk round `(x, y)` after `n` visits.
spec fn partway<V: Visit>(
    g: Seq<Seq<Tile>>,
    x: int,
    y: int,
    func: V,
    n: int,
    now: Seq<Seq<Tile>>,
    matching: Seq<(usize, usize)>,
) -> bool {
    &&& same_shape(g, now)
    &&& forall|i: int, j: int|
        inside(g, i, j) ==> #[trigger] now[i][j] == if walked_over(x, y, n, i, j) {
            func.leaves(g[i][j])
        } else {
            g[i][j]
        }
    &&& positions(matching) == kept_so_far(g, x, y, func, n)
}

/// Visits the position that the two indices stand for, if it is a cell.
fn visit_at<V: Visit>(
    i: Option<usize>,
    j: Option<usize>,
    tiles: &mut Vec<Vec<Tile>>,
    func: &V,
    matching: &mut Vec<(usize, usize)>,
)
    requires
        inside(grid_of(*old(tiles)), coordinate(i), coordinate(j)) ==> func.admits(
            old(tiles)[coordinate(i)][coordinate(j)],
        ),
    ensures
        same_shape(grid_of(*old(tiles)), grid_of(*final(tiles))),
        forall|a: int, b: int|
            inside(grid_of(*old(tiles)), a, b) ==> #[trigger] final(tiles)[a][b] == if a == coordinate(i)
                && b == coordinate(j) {
                func.leaves(old(tiles)[a][b])
            } else {
                old(tiles)[a][b]
            },
        positions(final(matching)@) == positions(old(matching)@) + kept_at(
            grid_of(*old(tiles)),
            coordinate(i),
            coordinate(j),
            *func,
        ),
{
    if let (Some(i), Some(j)) = (i, j) {
        if i < tiles.len() && j < tiles[i].len() {
            let kept = func.visit(&mut tiles[i][j]);
            if kept {
                matching.push((i, j));
                assert(positions(matching@) =~= positions(old(matching)@) + seq![(i as int, j as int)]);
            }
        }
    }
    assert(positions(matching@) =~= positions(old(matching)@) + kept_at(
        grid_of(*old(tiles)),
        coordinate(i),
        coordinate(j),
        *func,
    ));
}

/// One more visit carries a walk from `n` visits to `n + 1`.
proof fn lemma_next_visit<V: Visit>(
    g: Seq<Seq<Tile>>,
    x: int,
    y: int,
    func: V,
    n: int,
    before: Seq<Seq<Tile>>,
    kept_before: Seq<(usize, usize)>,
    i: int,
    j: int,
    after: Seq<Seq<Tile>>,
    kept_after: Seq<(usize, usize)>,
)
    requires
        0 <= n < 8,
        partway(g, x, y, func, n, before, kept_before),
        inside(g, i, j) ==> (i, j) == walk_step(x, y, n),
        !inside(g, i, j) ==> !inside(g, walk_step(x, y, n).0, walk_step(x, y, n).1),
        same_shape(before, after),
        forall|a: int, b: int|
            inside(before, a, b) ==> #[trigger] after[a][b] == if a == i && b == j {
                func.leaves(before[a][b])
            } else {
                before[a][b]
            },
        positions(kept_after) == positions(kept_before) + kept_at(before, i, j, func),
    ensures
        partway(g, x, y, func, n + 1, after, kept_after),
{
    let step = walk_step(x, y, n);
    assert forall|k: int| 0 <= k < n implies #[trigger] walk_step(x, y, k) != step by {}
    assert forall|a: int, b: int| inside(g, a, b) implies #[trigger] after[a][b] == if walked_over(
        x,
        y,
        n + 1,
        a,
        b,
    ) {
        func.leaves(g[a][b])
    } else {
        g[a][b]
    } by {
        assert(inside(before, a, b));
        if (a, b) == step {
            assert(walk_step(x, y, n) == (a, b));
            assert(walked_over(x, y, n + 1, a, b));
            assert(!walked_over(x, y, n, a, b));
        } else if walked_over(x, y, n, a, b) {
            let k = choose|k: int| 0 <= k < n && k < 8 && #[trigger] walk_step(x, y, k) == (a, b);
            assert(walk_step(x, y, k) == (a, b));
            assert(walked_over(x, y, n + 1, a, b));
        } else {
            if walked_over(x, y, n + 1, a, b) {
                let k = choose|k: int| 0 <= k < n + 1 && k < 8 && #[trigger] walk_step(x, y, k) == (a, b);
                assert(k < n);
                assert(walked_over(x, y, n, a, b));
            }
        }
    }
    if inside(g, step.0, step.1) {
        assert(inside(g, i, j) && (i, j) == step);
        assert(!walked_over(x, y, n, i, j));
        assert(before[i][j] == g[i][j]);
        assert(kept_at(before, i, j, func) == kept_at(g, step.0, step.1, func));
    } else {
        assert(kept_at(before, i, j, func) == kept_at(g, step.0, step.1, func));
    }
}

proof fn lemma_contains_add(a: Seq<(int, int)>, b: Seq<(int, int)>, p: (int, int))
    ensures
        (a + b).contains(p) <==> a.contains(p) || b.contains(p),
{
    if a.contains(p) {
        let k = choose|k: int| 0 <= k < a.len() && a[k] == p;
        assert((a + b)[k] == p);
    }
    if b.contains(p) {
        let k = choose|k: int| 0 <= k < b.len() && b[k] == p;
        assert((a + b)[a.len() + k] == p);
    }
    if (a + b).contains(p) {
        let k = choose|k: int| 0 <= k < (a + b).len() && (a + b)[k] == p;
        if k < a.len() {
            assert(a[k] == p);
        } else {
            assert(b[k - a.len()] == p);
        }
    }
}

proof fn lemma_kept_so_far<V: Visit>(g: Seq<Seq<Tile>>, x: int, y: int, func: V, n: int, p: (int, int))
    requires
        0 <= n <= 8,
    ensures
        kept_so_far(g, x, y, func, n).contains(p) <==> (walked_over(x, y, n, p.0, p.1) && inside(g, p.0, p.1)
            && func.keeps(g[p.0][p.1])),
        kept_so_far(g, x, y, func, n).len() <= n,
    decreases n,
{
    if n > 0 {
        lemma_kept_so_far(g, x, y, func, n - 1, p);
        let step = walk_step(x, y, n - 1);
        let last = kept_at(g, step.0, step.1, func);
        lemma_contains_add(kept_so_far(g, x, y, func, n - 1), last, p);
        if last.contains(p) {
            assert(last.len() == 1 && last[0] == p);
            assert(walk_step(x, y, n - 1) == p);
        }
        if walked_over(x, y, n, p.0, p.1) && inside(g, p.0, p.1) && func.keeps(g[p.0][p.1]) {
            let k = choose|k: int| 0 <= k < n && k < 8 && #[trigger] walk_step(x, y, k) == p;
            if k == n - 1 {
                assert(last[0] == p);
            } else {
                assert(walked_over(x, y, n - 1, p.0, p.1));
            }
        }
        if walked_over(x, y, n - 1, p.0, p.1) {
            let k = choose|k: int| 0 <= k < n - 1 && k < 8 && #[trigger] walk_step(x, y, k) == p;
            assert(walk_step(x, y, k) == p);
        }
    }
}

/// A walk round `(x, y)` goes over just the positions around `(x, y)`.
proof fn lemma_walk_is_around(x: int, y: int, i: int, j: int)
    ensures
        walked_over(x, y, 8, i, j) <==> touching(x, y, i, j),
{
    if touching(x, y, i, j) {
        let k: int = if (i, j) == (x, y - 1) {
            0
        } else if (i, j) == (x, y + 1) {
            1
        } else if (i, j) == (x - 1, y) {
            2
        } else if (i, j) == (x + 1, y) {
            3
        } else if (i, j) == (x + 1, y + 1) {
            4
        } else if (i, j) == (x - 1, y + 1) {
            5
        } else if (i, j) == (x + 1, y - 1) {
            6
        } else {
            7
        };
        assert(walk_step(x, y, k) == (i, j));
    }
    if walked_over(x, y, 8, i, j) {
        let k = choose|k: int| 0 <= k < 8 && k < 8 && #[trigger] walk_step(x, y, k) == (i, j);
        assert(touching(x, y, i, j));
    }
}

proof fn lemma_report_is_walk<V: Visit>(g: Seq<Seq<Tile>>, x: int, y: int, func: V)
    ensures
        kept_so_far(g, x, y, func, 8) == kept_around(g, x, y, func),
{
    reveal_with_fuel(kept_so_far, 9);
    assert(kept_so_far(g, x, y, func, 8) =~= kept_around(g, x, y, func));
}

/// The report of a walk holds just the neighbours that are cells and that
/// the visit keeps, and so at most eight positions.
pub proof fn lemma_kept_around<V: Visit>(g: Seq<Seq<Tile>>, x: int, y: int, func: V)
    ensures
        forall|i: int, j: int|
            #[trigger] kept_around(g, x, y, func).contains((i, j)) <==> (inside(g, i, j) && touching(
                x,
                y,
                i,
                j,
            ) && func.keeps(g[i][j])),
        kept_around(g, x, y, func).len() <= 8,
{
    lemma_report_is_walk(g, x, y, func);
    lemma_kept_so_far(g, x, y, func, 8, (0, 0));
    assert forall|i: int, j: int| #[trigger]
        kept_around(g, x, y, func).contains((i, j)) <==> (inside(g, i, j) && touching(x, y, i, j)
            && func.keeps(g[i][j])) by {
        lemma_kept_so_far(g, x, y, func, 8, (i, j));
        lemma_walk_is_around(x, y, i, j);
    }
}

/// Visits the neighbours of `(x, y)` in a fixed order (above, below, left,
/// right, then the four corners) and reports those that the visit keeps.
/// Positions outside the matrix are passed over, and so are those whose
/// coordinate would not fit the machine's integers.
pub fn do_around<V: Visit>(x: usize, y: usize, tiles: &mut Vec<Vec<Tile>>, func: &V) -> (matching: Vec<
    (usize, usize),
>)
    requires
        forall|i: int, j: int|
            inside(grid_of(*old(tiles)), i, j) && touching(x as int, y as int, i, j) ==> func.admits(
                #[trigger] old(tiles)[i][j],
            ),
    ensures
        walked(grid_of(*old(tiles)), x as int, y as int, *func, grid_of(*final(tiles))),
        positions(matching@) == kept_around(grid_of(*old(tiles)), x as int, y as int, *func),
{
    let ghost g = grid_of(*tiles);
    let mut matching: Vec<(usize, usize)> = Vec::new();
    let left = x.checked_sub(1);
    let right = x.checked_add(1);
    let above = y.checked_sub(1);
    let below = y.checked_add(1);
    let around: [(Option<usize>, Option<usize>); 8] = [
        (Some(x), above),
        (Some(x), below),
        (left, Some(y)),
        (right, Some(y)),
        (right, below),
        (left, below),
        (right, above),
        (left, above),
    ];
    assert(positions(matching@) =~= Seq::empty());
    proof {
        assert(around[0] == (Some(x), above));
        assert(around[1] == (Some(x), below));
        assert(around[2] == (left, Some(y)));
        assert(around[3] == (right, Some(y)));
        assert(around[4] == (right, below));
        assert(around[5] == (left, below));
        assert(around[6] == (right, above));
        assert(around[7] == (left, above));
        assert(g.len() <= usize::MAX);
        assert forall|i: int| 0 <= i < g.len() implies (#[trigger] g[i]).len() <= usize::MAX by {
            assert(g[i].len() == tiles[i].len());
        }
    }
    let mut n: usize = 0;
    while n < 8
        invariant
            0 <= n <= 8,
            g == grid_of(*old(tiles)),
            partway(g, x as int, y as int, *func, n as int, grid_of(*tiles), matching@),
            forall|i: int, j: int|
                inside(g, i, j) && touching(x as int, y as int, i, j) ==> func.admits(#[trigger] g[i][j]),
            forall|k: int|
                0 <= k < 8 ==> {
                    let step = walk_step(x as int, y as int, k);
                    let spot = (coordinate((#[trigger] around[k]).0), coordinate(around[k].1));
                    &&& inside(g, spot.0, spot.1) ==> spot == step
                    &&& !inside(g, spot.0, spot.1) ==> !inside(g, step.0, step.1)
                },
        decreases 8 - n,
    {
        let ghost before = grid_of(*tiles);
        let ghost kept_before = matching@;
        let (i, j) = around[n];
        proof {
            let step = walk_step(x as int, y as int, n as int);
            if inside(before, coordinate(i), coordinate(j)) {
                assert(inside(g, coordinate(i), coordinate(j)));
                assert(touching(x as int, y as int, step.0, step.1));
                assert forall|k: int| 0 <= k < n implies #[trigger] walk_step(x as int, y as int, k)
                    != step by {}
                assert(!walked_over(x as int, y as int, n as int, step.0, step.1));
                assert(before[step.0][step.1] == g[step.0][step.1]);
            }
        }
        visit_at(i, j, tiles, func, &mut matching);
        proof {
            lemma_next_visit(
                g,
                x as int,
                y as int,
                *func,
                n as int,
                before,
                kept_before,
                coordinate(i),
                coordinate(j),
                grid_of(*tiles),
                matching@,
            );
        }
        n += 1;
    }
    proof {
        let now = grid_of(*tiles);
        assert forall|i: int, j: int| inside(g, i, j) implies #[trigger] now[i][j] == if touching(
            x as int,
            y as int,
            i,
            j,
        ) {
            func.leaves(g[i][j])
        } else {
            g[i][j]
        } by {
            lemma_walk_is_around(x as int, y as int, i, j);
        }
        lemma_report_is_walk(g, x as int, y as int, *func);
    }
    matching
}

} // verus!
