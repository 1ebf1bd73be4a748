//! The chord: a click that opens the cells round a cell whose flags are
//! all set.

use vstd::prelude::*;
use vstd::set_lib::lemma_len_subset;
use crate::clicks::{cascaded, chord_targets, lemma_click_cascades, lemma_clicked, opens, IsOpenable};
use crate::grid::{closed_cells, inside, lemma_cells_of_rectangle, lemma_only_opened, only_opened, touching};
use crate::rules::{calls_for_reroll, left_clicked, lemma_wf, BoardView};
use crate::tile::{Tile, TileState};
use crate::walker::{lemma_kept_around, positions, Visit};

verus! {

/// A chord opens `(x, y)`: a cell neither flagged nor open.
pub open spec fn openable(g: Seq<Seq<Tile>>, x: int, y: int) -> bool {
    inside(g, x, y) && g[x][y].state != TileState::Marked && g[x][y].state != TileState::Visible
}

/// Every cell beside `(x, y)` is open or flagged.
pub open spec fn cleared_around(g: Seq<Seq<Tile>>, x: int, y: int) -> bool {
    forall|i: int, j: int|
        inside(g, i, j) && touching(x, y, i, j) ==> (#[trigger] g[i][j]).state == TileState::Visible
            || g[i][j].state == TileState::Marked
}

/// What the chord has to open after the click on the last cell of
/// `pending` has made the board `w`: the cells before it, and then those
/// that a chord on it opens, the first of them last; once the game has
/// ended, only the cells before it.
pub open spec fn pending_after(w: BoardView, pending: Seq<(int, int)>) -> Seq<(int, int)> {
    pending.drop_last() + (if w.phase.ended() {
        Seq::empty()
    } else {
        chord_targets(w.grid, pending.last().0, pending.last().1).reverse()
    })
}

/// The boards and the cells yet to be opened, step by step, are those of
/// a chord at work: each step is a click on the last of the cells yet to
/// be opened, in a game that has not ended, and leaves to be opened what
/// `pending_after` says.
pub open spec fn chord_steps(boards: Seq<BoardView>, pendings: Seq<Seq<(int, int)>>) -> bool {
    &&& boards.len() == pendings.len()
    &&& boards.len() >= 1
    &&& forall|k: int|
        0 <= k < boards.len() - 1 ==> {
            &&& (#[trigger] pendings[k]).len() > 0
            &&& !boards[k].phase.ended()
            &&& left_clicked(boards[k], pendings[k].last().0, pendings[k].last().1, boards[k + 1])
            &&& pendings[k + 1] == pending_after(boards[k + 1], pendings[k])
        }
}

/// The chord that has `pending` to open in turn, the last cell first,
/// makes the board `after` of the board `before`: step by step, until no
/// cell is left to open or the game has ended.
pub open spec fn chord_runs(before: BoardView, pending: Seq<(int, int)>, after: BoardView) -> bool {
    exists|boards: Seq<BoardView>, pendings: Seq<Seq<(int, int)>>|
        {
            &&& #[trigger] chord_steps(boards, pendings)
            &&& boards[0] == before
            &&& pendings[0] == pending
            &&& boards.last() == after
            &&& pendings.last().len() == 0 || after.phase.ended()
        }
}

/// `after` is the board `before` after a chord on `(x, y)`. Nothing
/// happens once the game has ended. Else the cells that the chord on
/// `(x, y)` opens are clicked on in the order of the walk round `(x, y)`,
/// each followed by the chord on itself, until the game has ended or no
/// cell is left; so nothing happens outside the matrix, and on a cell with
/// other than as many flags around it as it has mines around it. The game
/// is started by the first click, and it is not won. In a game that was
/// started, the chord only opens cells; unless it sets off a mine, every
/// cell beside `(x, y)` is open or flagged afterwards; and every empty
/// cell that it opens has nothing but open cells beside it.
pub open spec fn chorded(before: BoardView, x: int, y: int, after: BoardView) -> bool {
    &&& after.wf()
    &&& after.difficulty == before.difficulty
    &&& after.max_render_size == before.max_render_size
    &&& after.width() == before.width()
    &&& after.height() == before.height()
    &&& before.phase.ended() ==> after == before
    &&& !before.phase.ended() ==> chord_runs(before, chord_targets(before.grid, x, y).reverse(), after)
    &&& chord_targets(before.grid, x, y).len() == 0 ==> after == before
    &&& !before.phase.ended() && chord_targets(before.grid, x, y).len() > 0 ==> {
        &&& after.phase.started()
        &&& !(after.phase is Won)
        &&& before.phase.started() ==> {
            &&& after.phase.first_move() == before.phase.first_move()
            &&& only_opened(before.grid, after.grid)
            &&& cascaded(before.grid, after.grid)
            &&& !after.phase.ended() ==> cleared_around(after.grid, x, y)
        }
    }
}

/// 1 if the chord is to open next a cell that it can open, else 0.
pub(crate) closed spec fn top_open(v: BoardView, pending: Seq<(int, int)>) -> int {
    if pending.len() > 0 && !v.phase.ended() && openable(v.grid, pending.last().0, pending.last().1) {
        1
    } else {
        0
    }
}

/// What a chord under way has yet to do, as a number: it shrinks with
/// every closed cell that is opened, and when the next cell of `pending`
/// becomes one that the chord can open.
pub(crate) closed spec fn chord_measure(v: BoardView, pending: Seq<(int, int)>) -> int {
    2 * closed_cells(v.grid).len() - top_open(v, pending)
}

/// Every cell beside `(x, y)` is open, flagged, or yet to be opened.
pub(crate) open spec fn clearing_around(g: Seq<Seq<Tile>>, x: int, y: int, pending: Seq<(int, int)>) -> bool {
    forall|i: int, j: int|
        inside(g, i, j) && touching(x, y, i, j) ==> (#[trigger] g[i][j]).state == TileState::Visible
            || g[i][j].state == TileState::Marked || pending.contains((i, j))
}

/// What holds of a chord under way whatever the game was like before.
pub(crate) open spec fn chord_frame(v0: BoardView, x: int, y: int, v: BoardView, pending: Seq<(int, int)>) -> bool {
    &&& v.wf()
    &&& v.difficulty == v0.difficulty
    &&& v.max_render_size == v0.max_render_size
    &&& v.width() == v0.width()
    &&& v.height() == v0.height()
    &&& !(v.phase is Won)
    &&& !v0.phase.ended()
    &&& chord_targets(v0.grid, x, y).len() == 0 ==> v == v0 && pending.len() == 0
    &&& chord_targets(v0.grid, x, y).len() > 0 ==> v.phase.started() || pending.len() > 0
    &&& v0.phase.started() ==> v.phase.started() && v.phase.first_move() == v0.phase.first_move()
    &&& forall|k: int| 0 <= k < pending.len() ==> inside(v.grid, (#[trigger] pending[k]).0, pending[k].1)
}

/// What holds of a chord under way in a game that was started before.
pub(crate) open spec fn chord_progress(v0: BoardView, x: int, y: int, v: BoardView, pending: Seq<(int, int)>) -> bool {
    &&& only_opened(v0.grid, v.grid)
    &&& cascaded(v0.grid, v.grid)
    &&& chord_targets(v0.grid, x, y).len() > 0 && !v.phase.ended() ==> clearing_around(v.grid, x, y, pending)
}

/// The state of a chord on `(x, y)` under way: `v` is the board, and the
/// cells of `pending` are yet to be opened and chorded, the last one
/// first.
pub(crate) closed spec fn chording(v0: BoardView, x: int, y: int, v: BoardView, pending: Seq<(int, int)>) -> bool {
    &&& chord_frame(v0, x, y, v, pending)
    &&& v0.phase.started() ==> chord_progress(v0, x, y, v, pending)
}

pub(crate) proof fn lemma_chord_start(v0: BoardView, x: int, y: int)
    requires
        v0.wf(),
        !v0.phase.ended(),
    ensures
        chording(v0, x, y, v0, chord_targets(v0.grid, x, y).reverse()),
        closed_cells(v0.grid).finite(),
        chord_measure(v0, chord_targets(v0.grid, x, y).reverse()) >= 0,
{
    let targets = chord_targets(v0.grid, x, y);
    let pending = targets.reverse();
    assert(pending.len() == targets.len());
    lemma_wf(v0);
    lemma_cells_of_rectangle(v0.grid, v0.width(), v0.height());
    lemma_kept_around(v0.grid, x, y, IsOpenable);
    if targets.len() > 0 {
        assert(clearing_around(v0.grid, x, y, pending)) by {
            assert forall|i: int, j: int| inside(v0.grid, i, j) && touching(x, y, i, j) implies (
            #[trigger] v0.grid[i][j]).state == TileState::Visible || v0.grid[i][j].state
                == TileState::Marked || pending.contains((i, j)) by {
                if IsOpenable.keeps(v0.grid[i][j]) {
                    assert(targets.contains((i, j)));
                    let k = choose|k: int| 0 <= k < targets.len() && targets[k] == (i, j);
                    assert(pending[targets.len() - 1 - k] == (i, j));
                }
            }
        }
    }
    assert(only_opened(v0.grid, v0.grid));
    assert(cascaded(v0.grid, v0.grid));
    assert forall|k: int| 0 <= k < pending.len() implies inside(v0.grid, (#[trigger] pending[k]).0, pending[k].1) by {
        assert(pending[k] == targets[targets.len() - 1 - k]);
        assert(targets.contains(pending[k]));
    }
    assert(chord_frame(v0, x, y, v0, pending));
    if top_open(v0, pending) == 1 {
        assert(closed_cells(v0.grid).contains(pending.last()));
    }
}

/// What has cascaded so far and cascades in the next click has cascaded
/// after it.
pub(crate) proof fn lemma_cascade_goes_on(g: Seq<Seq<Tile>>, mid: Seq<Seq<Tile>>, after: Seq<Seq<Tile>>)
    requires
        only_opened(g, mid),
        only_opened(mid, after),
        cascaded(g, mid),
        cascaded(mid, after),
    ensures
        cascaded(g, after),
{
    assert forall|i: int, j: int, a: int, b: int|
        #![trigger touching(i, j, a, b), after[i][j]]
        inside(g, i, j) && g[i][j].state != TileState::Visible && g[i][j].is_empty() && after[i][j].state
            == TileState::Visible && touching(i, j, a, b) && inside(g, a, b) implies after[a][b].state
        == TileState::Visible by {
        assert(g[i].len() == mid[i].len() && g[a].len() == mid[a].len());
        assert(inside(mid, i, j) && inside(mid, a, b));
        assert(mid[i][j] == g[i][j] || mid[i][j] == g[i][j].opened());
        assert(after[a][b] == mid[a][b] || after[a][b] == mid[a][b].opened());
        if mid[i][j].state == TileState::Visible {
            assert(touching(i, j, a, b));
            assert(mid[a][b].state == TileState::Visible);
        } else {
            assert(mid[i][j] == g[i][j]);
            assert(touching(i, j, a, b));
        }
    }
}

/// Opening cells twice over is opening cells.
proof fn lemma_opened_twice(g: Seq<Seq<Tile>>, mid: Seq<Seq<Tile>>, after: Seq<Seq<Tile>>)
    requires
        only_opened(g, mid),
        only_opened(mid, after),
    ensures
        only_opened(g, after),
{
    assert forall|i: int| 0 <= i < g.len() implies (#[trigger] g[i]).len() == after[i].len() by {
        assert(g[i].len() == mid[i].len());
    }
    assert forall|i: int, j: int| inside(g, i, j) implies #[trigger] after[i][j] == g[i][j] || after[i][j]
        == g[i][j].opened() by {
        assert(inside(mid, i, j));
        assert(mid[i][j] == g[i][j] || mid[i][j] == g[i][j].opened());
        assert(after[i][j] == mid[i][j] || after[i][j] == mid[i][j].opened());
    }
}

/// The cells beside `(x, y)` that were open, flagged or yet to be opened
/// are so after the click on the last cell of `pending`.
pub(crate) proof fn lemma_clearing_goes_on(
    g: Seq<Seq<Tile>>,
    x: int,
    y: int,
    pending: Seq<(int, int)>,
    after: Seq<Seq<Tile>>,
    more: Seq<(int, int)>,
)
    requires
        pending.len() > 0,
        clearing_around(g, x, y, pending),
        only_opened(g, after),
        opens(g, pending.last().0, pending.last().1) ==> after[pending.last().0][pending.last().1].state
            == TileState::Visible,
    ensures
        clearing_around(after, x, y, pending.drop_last() + more),
{
    let c = pending.last();
    let rest = pending.drop_last();
    let next = rest + more;
    assert forall|i: int, j: int| inside(after, i, j) && touching(x, y, i, j) implies (
    #[trigger] after[i][j]).state == TileState::Visible || after[i][j].state == TileState::Marked
        || next.contains((i, j)) by {
        assert(g[i].len() == after[i].len());
        assert(inside(g, i, j));
        assert(after[i][j] == g[i][j] || after[i][j] == g[i][j].opened());
        if g[i][j].state != TileState::Visible && g[i][j].state != TileState::Marked {
            assert(pending.contains((i, j)));
            let k = choose|k: int| 0 <= k < pending.len() && pending[k] == (i, j);
            if k < rest.len() {
                assert(next[k] == (i, j));
            } else {
                assert(c == (i, j));
                assert(opens(g, c.0, c.1));
            }
        }
    }
}

/// What a click makes of a game that was started: it only opens cells,
/// the cell it is made on among them where it opens any, and with an empty
/// cell that it opens every cell beside that.
proof fn lemma_click_in_game(v: BoardView, x: int, y: int, w: BoardView)
    requires
        v.wf(),
        v.phase.started(),
        !v.phase.ended(),
        inside(v.grid, x, y),
        left_clicked(v, x, y, w),
    ensures
        only_opened(v.grid, w.grid),
        cascaded(v.grid, w.grid),
        opens(v.grid, x, y) ==> w.grid[x][y].state == TileState::Visible,
        closed_cells(w.grid).subset_of(closed_cells(v.grid)),
        closed_cells(v.grid).finite(),
        closed_cells(w.grid).finite(),
        closed_cells(w.grid).len() <= closed_cells(v.grid).len(),
        w.phase.first_move() == v.phase.first_move(),
{
    assert(!calls_for_reroll(v, x, y));
    lemma_clicked(v.grid, x, y, w.grid);
    lemma_click_cascades(v.grid, x, y, w.grid);
    lemma_only_opened(v.grid, w.grid);
    lemma_wf(v);
    lemma_wf(w);
    lemma_cells_of_rectangle(v.grid, v.width(), v.height());
    lemma_cells_of_rectangle(w.grid, w.width(), w.height());
    lemma_len_subset(closed_cells(w.grid), closed_cells(v.grid));
}

/// What a click makes of any game that has not ended.
proof fn lemma_click_any(v: BoardView, x: int, y: int, w: BoardView)
    requires
        v.wf(),
        !v.phase.ended(),
        inside(v.grid, x, y),
        left_clicked(v, x, y, w),
    ensures
        w.wf(),
        w.difficulty == v.difficulty,
        w.max_render_size == v.max_render_size,
        w.width() == v.width(),
        w.height() == v.height(),
        w.phase.started(),
        !(w.phase is Won),
        closed_cells(w.grid).finite(),
        forall|i: int, j: int| inside(v.grid, i, j) <==> inside(w.grid, i, j),
{
    lemma_wf(v);
    lemma_wf(w);
    lemma_cells_of_rectangle(w.grid, w.width(), w.height());
    assert forall|i: int, j: int| inside(v.grid, i, j) <==> inside(w.grid, i, j) by {
        if 0 <= i < v.grid.len() {
            assert(v.grid[i].len() == v.height() && w.grid[i].len() == w.height());
        }
    }
}

/// The cells yet to be opened after a step of a chord are cells.
proof fn lemma_pending_inside(v: BoardView, pending: Seq<(int, int)>, w: BoardView)
    requires
        pending.len() > 0,
        forall|k: int| 0 <= k < pending.len() ==> inside(v.grid, (#[trigger] pending[k]).0, pending[k].1),
        forall|i: int, j: int| inside(v.grid, i, j) <==> inside(w.grid, i, j),
    ensures
        forall|k: int|
            0 <= k < pending_after(w, pending).len() ==> inside(
                w.grid,
                (#[trigger] pending_after(w, pending)[k]).0,
                pending_after(w, pending)[k].1,
            ),
{
    let c = pending.last();
    let rest = pending.drop_last();
    let next = pending_after(w, pending);
    let targets = chord_targets(w.grid, c.0, c.1);
    lemma_kept_around(w.grid, c.0, c.1, IsOpenable);
    assert forall|k: int| 0 <= k < next.len() implies inside(w.grid, (#[trigger] next[k]).0, next[k].1) by {
        if k < rest.len() {
            assert(next[k] == pending[k]);
        } else {
            let t = targets.reverse();
            assert(next[k] == t[k - rest.len()]);
            assert(t[k - rest.len()] == targets[targets.len() - 1 - (k - rest.len())]);
            assert(targets.contains(next[k]));
        }
    }
}

/// One step of a chord: the click on the last cell of `pending`, and the
/// chord on it.
pub(crate) proof fn lemma_chord_step(v0: BoardView, x: int, y: int, v: BoardView, pending: Seq<(int, int)>, w: BoardView)
    requires
        chording(v0, x, y, v, pending),
        pending.len() > 0,
        !v.phase.ended(),
        left_clicked(v, pending.last().0, pending.last().1, w),
    ensures
        chording(v0, x, y, w, pending_after(w, pending)),
        w.phase.started(),
        closed_cells(w.grid).finite(),
        chord_measure(w, pending_after(w, pending)) >= 0,
        v.phase.started() ==> chord_measure(w, pending_after(w, pending)) < chord_measure(v, pending) || (
        chord_measure(w, pending_after(w, pending)) == chord_measure(v, pending) && pending_after(
            w,
            pending,
        ).len() < pending.len()),
{
    let c = pending.last();
    let next = pending_after(w, pending);
    assert(inside(v.grid, c.0, c.1)) by {
        assert(pending[pending.len() - 1] == c);
    }
    lemma_click_any(v, c.0, c.1, w);
    lemma_pending_inside(v, pending, w);
    assert(chord_frame(v0, x, y, w, next)) by {
        if v0.phase.started() {
            lemma_click_in_game(v, c.0, c.1, w);
        }
    }
    if v0.phase.started() {
        lemma_click_in_game(v, c.0, c.1, w);
        lemma_opened_twice(v0.grid, v.grid, w.grid);
        lemma_cascade_goes_on(v0.grid, v.grid, w.grid);
        if !w.phase.ended() {
            lemma_clearing_goes_on(
                v.grid,
                x,
                y,
                pending,
                w.grid,
                chord_targets(w.grid, c.0, c.1).reverse(),
            );
        }
        assert(chord_progress(v0, x, y, w, next));
    }
    lemma_measure_is_natural(w, next);
    if v.phase.started() {
        lemma_click_in_game(v, c.0, c.1, w);
        lemma_chord_measure(v, pending, w);
    }
}

/// The measure of a chord is no negative number.
proof fn lemma_measure_is_natural(v: BoardView, pending: Seq<(int, int)>)
    requires
        closed_cells(v.grid).finite(),
    ensures
        chord_measure(v, pending) >= 0,
{
    if top_open(v, pending) == 1 {
        assert(closed_cells(v.grid).contains(pending.last()));
    }
}

/// The measure of a chord after a step in a game that was started.
proof fn lemma_chord_measure(v: BoardView, pending: Seq<(int, int)>, w: BoardView)
    requires
        pending.len() > 0,
        !v.phase.ended(),
        closed_cells(v.grid).finite(),
        closed_cells(w.grid).finite(),
        closed_cells(w.grid).subset_of(closed_cells(v.grid)),
        closed_cells(w.grid).len() <= closed_cells(v.grid).len(),
        opens(v.grid, pending.last().0, pending.last().1) ==> w.grid[pending.last().0][pending.last().1].state
            == TileState::Visible,
    ensures
        chord_measure(w, pending_after(w, pending)) < chord_measure(v, pending) || (chord_measure(
            w,
            pending_after(w, pending),
        ) == chord_measure(v, pending) && pending_after(w, pending).len() < pending.len()),
{
    let c = pending.last();
    let rest = pending.drop_last();
    let next = pending_after(w, pending);
    let targets = chord_targets(w.grid, c.0, c.1);
    assert(targets.reverse().len() == targets.len());
    if top_open(v, pending) == 1 {
        assert(opens(v.grid, c.0, c.1));
        assert(closed_cells(v.grid).contains(c));
        assert(!closed_cells(w.grid).contains(c));
        closed_cells(w.grid).lemma_subset_not_in_lt(closed_cells(v.grid), c);
    } else if !w.phase.ended() && targets.len() > 0 {
        lemma_kept_around(w.grid, c.0, c.1, IsOpenable);
        assert(next =~= rest + targets.reverse());
        assert(next.last() == targets[0]);
        assert(targets.contains(targets[0]));
        assert(openable(w.grid, targets[0].0, targets[0].1));
        assert(top_open(w, next) == 1);
    } else {
        assert(next =~= rest);
    }
}

/// One step more of a chord at work.
pub(crate) proof fn lemma_chord_goes_on(boards: Seq<BoardView>, pendings: Seq<Seq<(int, int)>>, w: BoardView)
    requires
        chord_steps(boards, pendings),
        pendings.last().len() > 0,
        !boards.last().phase.ended(),
        left_clicked(boards.last(), pendings.last().last().0, pendings.last().last().1, w),
    ensures
        chord_steps(boards.push(w), pendings.push(pending_after(w, pendings.last()))),
{
    let boards2 = boards.push(w);
    let pendings2 = pendings.push(pending_after(w, pendings.last()));
    assert forall|k: int| 0 <= k < boards2.len() - 1 implies {
        &&& (#[trigger] pendings2[k]).len() > 0
        &&& !boards2[k].phase.ended()
        &&& left_clicked(boards2[k], pendings2[k].last().0, pendings2[k].last().1, boards2[k + 1])
        &&& pendings2[k + 1] == pending_after(boards2[k + 1], pendings2[k])
    } by {
        if k < boards.len() - 1 {
            assert(pendings[k].len() > 0);
            assert(boards2[k] == boards[k] && boards2[k + 1] == boards[k + 1]);
            assert(pendings2[k] == pendings[k] && pendings2[k + 1] == pendings[k + 1]);
        } else {
            assert(boards2[k] == boards.last() && pendings2[k] == pendings.last());
        }
    }
}

/// A chord with nothing left to do, or with the game ended, is done.
pub(crate) proof fn lemma_chord_end(
    v0: BoardView,
    x: int,
    y: int,
    v: BoardView,
    pending: Seq<(int, int)>,
    boards: Seq<BoardView>,
    pendings: Seq<Seq<(int, int)>>,
)
    requires
        chording(v0, x, y, v, pending),
        pending.len() == 0 || v.phase.ended(),
        chord_steps(boards, pendings),
        boards[0] == v0,
        pendings[0] == chord_targets(v0.grid, x, y).reverse(),
        boards.last() == v,
        pendings.last() == pending,
    ensures
        chorded(v0, x, y, v),
{
    assert(chord_runs(v0, chord_targets(v0.grid, x, y).reverse(), v));
    if chord_targets(v0.grid, x, y).len() > 0 && v0.phase.started() && !v.phase.ended() {
        assert(clearing_around(v.grid, x, y, pending));
        assert forall|i: int, j: int| inside(v.grid, i, j) && touching(x, y, i, j) implies (
        #[trigger] v.grid[i][j]).state == TileState::Visible || v.grid[i][j].state == TileState::Marked by {
            assert(!pending.contains((i, j)));
        }
    }
}

/// Puts the cells on the stack, the first of them last.
pub(crate) fn push_reversed(stack: &mut Vec<(usize, usize)>, cells: &Vec<(usize, usize)>)
    ensures
        positions(final(stack)@) == positions(old(stack)@) + positions(cells@).reverse(),
{
    let mut n: usize = cells.len();
    assert(positions(stack@) =~= positions(old(stack)@) + positions(cells@).reverse().take(0));
    while n > 0
        invariant
            n <= cells.len(),
            positions(stack@) == positions(old(stack)@) + positions(cells@).reverse().take(cells.len() - n),
        decreases n,
    {
        n -= 1;
        let ghost before = positions(stack@);
        stack.push(cells[n]);
        proof {
            let turned = positions(cells@).reverse();
            assert(turned[cells.len() - 1 - n] == positions(cells@)[n as int]);
            assert(positions(stack@) =~= before.push((cells[n as int].0 as int, cells[n as int].1 as int)));
            assert(turned.take(cells.len() - n) =~= turned.take(cells.len() - 1 - n).push(
                turned[cells.len() - 1 - n],
            ));
            assert(positions(stack@) =~= positions(old(stack)@) + turned.take(cells.len() - n));
        }
    }
    assert(positions(cells@).reverse().take(cells.len() as int) =~= positions(cells@).reverse());
}

} // verus!
