//! How far a chord goes where every flag stands on a mine: no mine goes
//! off, and round every cell that the chord has clicked on and that has
//! all its flags, every cell ends open or flagged.

use vstd::prelude::*;
use crate::chord::{
    chord_runs, chord_steps, chorded, cleared_around, clearing_around, lemma_clearing_goes_on, pending_after,
};
use crate::clicks::{
    blows_up, chord_targets, clicked, lemma_clicked, marked_around, open_at, opens, IsMarked, IsOpenable,
};
use crate::flood::{flood_spares_mines, flooded};
use crate::grid::{
    counts_exact, inside, lemma_only_opened, lemma_same_layout, mine_at, mines_around, only_opened,
    regions_open, same_layout, touching,
};
use crate::rules::{calls_for_reroll, left_clicked, lemma_wf, BoardView};
use crate::tile::{Tile, TileState};
use crate::walker::{kept_around, kept_at, lemma_kept_around, Visit};

verus! {

/// Every flag stands on a mine.
pub open spec fn flags_on_mines(g: Seq<Seq<Tile>>) -> bool {
    forall|i: int, j: int| inside(g, i, j) && (#[trigger] g[i][j]).state == TileState::Marked ==> g[i][j].is_mine
}

/// `(x, y)` is a cell with as many flags around it as it has mines around
/// it.
pub open spec fn satisfied(g: Seq<Seq<Tile>>, x: int, y: int) -> bool {
    inside(g, x, y) && g[x][y].bombs_near == marked_around(g, x, y)
}

/// `(x, y)` is a cell without a mine and without a flag.
pub open spec fn safe_target(g: Seq<Seq<Tile>>, x: int, y: int) -> bool {
    inside(g, x, y) && !g[x][y].is_mine && g[x][y].state != TileState::Marked
}

/// The flags of `g` are those of `after`.
pub open spec fn flags_kept(g: Seq<Seq<Tile>>, after: Seq<Seq<Tile>>) -> bool {
    forall|i: int, j: int|
        inside(g, i, j) ==> ((#[trigger] after[i][j]).state == TileState::Marked <==> g[i][j].state
            == TileState::Marked)
}

/// 1 if `(x, y)` is a flagged cell, else 0.
spec fn flag_at(g: Seq<Seq<Tile>>, x: int, y: int) -> int {
    if inside(g, x, y) && g[x][y].state == TileState::Marked {
        1
    } else {
        0
    }
}

/// A flag counts no more than the mine under it.
proof fn lemma_flag_on_mine(g: Seq<Seq<Tile>>, i: int, j: int)
    requires
        flags_on_mines(g),
    ensures
        0 <= flag_at(g, i, j) <= mine_at(g, i, j) <= 1,
{
    if inside(g, i, j) && g[i][j].state == TileState::Marked {
        assert(g[i][j].is_mine);
    }
}

/// The flags around `(x, y)`, flag by flag.
spec fn flags_round(g: Seq<Seq<Tile>>, x: int, y: int) -> Seq<int> {
    seq![
        flag_at(g, x, y - 1),
        flag_at(g, x, y + 1),
        flag_at(g, x - 1, y),
        flag_at(g, x + 1, y),
        flag_at(g, x + 1, y + 1),
        flag_at(g, x - 1, y + 1),
        flag_at(g, x + 1, y - 1),
        flag_at(g, x - 1, y - 1),
    ]
}

/// The mines around `(x, y)`, mine by mine.
spec fn mines_round(g: Seq<Seq<Tile>>, x: int, y: int) -> Seq<int> {
    seq![
        mine_at(g, x, y - 1),
        mine_at(g, x, y + 1),
        mine_at(g, x - 1, y),
        mine_at(g, x + 1, y),
        mine_at(g, x + 1, y + 1),
        mine_at(g, x - 1, y + 1),
        mine_at(g, x + 1, y - 1),
        mine_at(g, x - 1, y - 1),
    ]
}

/// The sum of eight numbers.
spec fn sum8(s: Seq<int>) -> int {
    s[0] + s[1] + s[2] + s[3] + s[4] + s[5] + s[6] + s[7]
}

/// Eight numbers that are each no more than another, and that add up to
/// the same, are the same.
proof fn lemma_same_sums(f: Seq<int>, m: Seq<int>, k: int)
    requires
        f[0] <= m[0],
        f[1] <= m[1],
        f[2] <= m[2],
        f[3] <= m[3],
        f[4] <= m[4],
        f[5] <= m[5],
        f[6] <= m[6],
        f[7] <= m[7],
        sum8(f) == sum8(m),
        0 <= k < 8,
    ensures
        f[k] == m[k],
{
}

/// The flags around a position count no more than the mines under them.
proof fn lemma_flags_on_mines_round(g: Seq<Seq<Tile>>, x: int, y: int)
    requires
        flags_on_mines(g),
    ensures
        forall|k: int| 0 <= k < 8 ==> (#[trigger] flags_round(g, x, y)[k]) <= mines_round(g, x, y)[k],
{
    lemma_flag_on_mine(g, x, y - 1);
    lemma_flag_on_mine(g, x, y + 1);
    lemma_flag_on_mine(g, x - 1, y);
    lemma_flag_on_mine(g, x + 1, y);
    lemma_flag_on_mine(g, x + 1, y + 1);
    lemma_flag_on_mine(g, x - 1, y + 1);
    lemma_flag_on_mine(g, x + 1, y - 1);
    lemma_flag_on_mine(g, x - 1, y - 1);
}

/// The number of flags around a position, flag by flag.
proof fn lemma_marked_around(g: Seq<Seq<Tile>>, x: int, y: int)
    ensures
        marked_around(g, x, y) == sum8(flags_round(g, x, y)),
{
    assert forall|i: int, j: int| (#[trigger] kept_at(g, i, j, IsMarked)).len() == flag_at(g, i, j) by {}
}

/// The number of mines around a position, mine by mine.
proof fn lemma_mines_around(g: Seq<Seq<Tile>>, x: int, y: int)
    ensures
        mines_around(g, x, y) == sum8(mines_round(g, x, y)),
{
}

/// Equal numbers of flags and of mines, one by one.
proof fn lemma_equal_sums(marked: int, mines: int, count: int, flags: int, bombs: int)
    requires
        marked == flags,
        mines == bombs,
        count == mines,
        count == marked,
    ensures
        flags == bombs,
{
}

/// A cell that has all its flags has as many flags as mines around it.
proof fn lemma_satisfied_sums(g: Seq<Seq<Tile>>, x: int, y: int)
    requires
        inside(g, x, y),
        g[x][y].bombs_near == mines_around(g, x, y),
        g[x][y].bombs_near == marked_around(g, x, y),
    ensures
        sum8(flags_round(g, x, y)) == sum8(mines_round(g, x, y)),
{
    lemma_marked_around(g, x, y);
    lemma_mines_around(g, x, y);
    lemma_equal_sums(
        marked_around(g, x, y) as int,
        mines_around(g, x, y),
        g[x][y].bombs_near as int,
        sum8(flags_round(g, x, y)),
        sum8(mines_round(g, x, y)),
    );
}

/// The place of a position among the eight around `(x, y)`.
spec fn place_round(x: int, y: int, a: int, b: int) -> int {
    if (a, b) == (x, y - 1) {
        0
    } else if (a, b) == (x, y + 1) {
        1
    } else if (a, b) == (x - 1, y) {
        2
    } else if (a, b) == (x + 1, y) {
        3
    } else if (a, b) == (x + 1, y + 1) {
        4
    } else if (a, b) == (x - 1, y + 1) {
        5
    } else if (a, b) == (x + 1, y - 1) {
        6
    } else {
        7
    }
}

proof fn lemma_place_round(g: Seq<Seq<Tile>>, x: int, y: int, a: int, b: int)
    requires
        touching(x, y, a, b),
    ensures
        0 <= place_round(x, y, a, b) < 8,
        flags_round(g, x, y)[place_round(x, y, a, b)] == flag_at(g, a, b),
        mines_round(g, x, y)[place_round(x, y, a, b)] == mine_at(g, a, b),
{
}

/// Round a cell that has all its flags, where every flag stands on a mine,
/// no mine lies on a cell without a flag.
proof fn lemma_satisfied_is_safe(g: Seq<Seq<Tile>>, x: int, y: int, a: int, b: int)
    requires
        counts_exact(g),
        flags_on_mines(g),
        satisfied(g, x, y),
        touching(x, y, a, b),
        inside(g, a, b),
        g[a][b].state != TileState::Marked,
    ensures
        !g[a][b].is_mine,
{
    let f = flags_round(g, x, y);
    let m = mines_round(g, x, y);
    let k = place_round(x, y, a, b);
    lemma_place_round(g, x, y, a, b);
    assert(g[x][y].bombs_near == mines_around(g, x, y));
    assert(sum8(f) == sum8(m)) by {
        lemma_satisfied_sums(g, x, y);
    }
    assert(f[0] <= m[0] && f[1] <= m[1] && f[2] <= m[2] && f[3] <= m[3] && f[4] <= m[4] && f[5] <= m[5] && f[6]
        <= m[6] && f[7] <= m[7]) by {
        lemma_flags_on_mines_round(g, x, y);
    }
    lemma_same_sums(f, m, k);
    assert(flag_at(g, a, b) == 0);
}

/// The cells that a chord opens are cells without a mine and without a
/// flag, where every flag stands on a mine.
proof fn lemma_targets_are_safe(g: Seq<Seq<Tile>>, x: int, y: int)
    requires
        counts_exact(g),
        flags_on_mines(g),
    ensures
        forall|k: int|
            0 <= k < chord_targets(g, x, y).len() ==> safe_target(
                g,
                (#[trigger] chord_targets(g, x, y)[k]).0,
                chord_targets(g, x, y)[k].1,
            ),
{
    let targets = chord_targets(g, x, y);
    lemma_kept_around(g, x, y, IsOpenable);
    assert forall|k: int| 0 <= k < targets.len() implies safe_target(g, (#[trigger] targets[k]).0, targets[k].1) by {
        let t = targets[k];
        assert(targets.contains(t));
        assert(kept_around(g, x, y, IsOpenable).contains((t.0, t.1)));
        assert(IsOpenable.keeps(g[t.0][t.1]));
        lemma_satisfied_is_safe(g, x, y, t.0, t.1);
    }
}

/// Matrices with the same flags and the same counts have the same cells
/// with all their flags.
proof fn lemma_satisfied_kept(g: Seq<Seq<Tile>>, after: Seq<Seq<Tile>>, x: int, y: int)
    requires
        same_layout(g, after),
        flags_kept(g, after),
    ensures
        satisfied(after, x, y) == satisfied(g, x, y),
{
    lemma_marked_around(g, x, y);
    lemma_marked_around(after, x, y);
    assert forall|i: int, j: int| #[trigger] flag_at(after, i, j) == flag_at(g, i, j) by {
        if 0 <= i < g.len() {
            assert(g[i].len() == after[i].len());
        }
        if inside(g, i, j) {
            assert(after[i][j].state == TileState::Marked <==> g[i][j].state == TileState::Marked);
        }
    }
    if 0 <= x < g.len() {
        assert(g[x].len() == after[x].len());
    }
    if inside(g, x, y) {
        assert(g[x][y].bombs_near == after[x][y].bombs_near);
    }
}

/// A click on a cell without a mine and without a flag, where every flag
/// stands on a mine, opens the cell and no mine, and takes no flag away.
proof fn lemma_safe_click(g: Seq<Seq<Tile>>, x: int, y: int, after: Seq<Seq<Tile>>)
    requires
        counts_exact(g),
        flags_on_mines(g),
        safe_target(g, x, y),
        clicked(g, x, y, after),
    ensures
        only_opened(g, after),
        same_layout(g, after),
        flags_kept(g, after),
        flags_on_mines(after),
        after[x][y].state == TileState::Visible,
        forall|i: int, j: int| inside(g, i, j) <==> inside(after, i, j),
{
    lemma_clicked(g, x, y, after);
    lemma_only_opened(g, after);
    assert forall|i: int, j: int| inside(g, i, j) <==> inside(after, i, j) by {
        if 0 <= i < g.len() {
            assert(g[i].len() == after[i].len());
        }
    }
    assert(flags_kept(g, after)) by {
        reveal(clicked);
        if opens(g, x, y) && g[x][y].is_empty() {
            let mid = open_at(g, x, y);
            assert(same_layout(g, mid)) by {
                assert forall|i: int, j: int| inside(g, i, j) implies (#[trigger] g[i][j]).is_mine
                    == mid[i][j].is_mine && g[i][j].bombs_near == mid[i][j].bombs_near by {}
            }
            lemma_same_layout(g, mid);
            flood_spares_mines(mid, x, y);
            assert forall|i: int, j: int| inside(g, i, j) implies ((#[trigger] after[i][j]).state
                == TileState::Marked <==> g[i][j].state == TileState::Marked) by {
                assert(inside(mid, i, j));
                assert(after[i][j] == g[i][j] || after[i][j] == g[i][j].opened());
                if g[i][j].state == TileState::Marked {
                    assert(g[i][j].is_mine);
                    assert(mid[i][j] == g[i][j]);
                    assert(!flooded(mid, x, y, i, j));
                }
            }
        } else {
            assert forall|i: int, j: int| inside(g, i, j) implies ((#[trigger] after[i][j]).state
                == TileState::Marked <==> g[i][j].state == TileState::Marked) by {}
        }
    }
    assert(flags_on_mines(after)) by {
        assert forall|i: int, j: int| inside(after, i, j) && (#[trigger] after[i][j]).state
            == TileState::Marked implies after[i][j].is_mine by {
            assert(inside(g, i, j));
            assert(g[i][j].state == TileState::Marked);
            assert(g[i][j].is_mine == after[i][j].is_mine);
        }
    }
    if !opens(g, x, y) {
        reveal(clicked);
    }
}

/// Round a cell that has all its flags, every cell is open, flagged, or
/// among those that a chord on the cell opens.
proof fn lemma_targets_clear(g: Seq<Seq<Tile>>, x: int, y: int, rest: Seq<(int, int)>)
    requires
        satisfied(g, x, y),
    ensures
        clearing_around(g, x, y, rest + chord_targets(g, x, y).reverse()),
{
    let targets = chord_targets(g, x, y);
    let pending = rest + targets.reverse();
    lemma_kept_around(g, x, y, IsOpenable);
    assert forall|i: int, j: int| inside(g, i, j) && touching(x, y, i, j) implies (#[trigger] g[i][j]).state
        == TileState::Visible || g[i][j].state == TileState::Marked || pending.contains((i, j)) by {
        if IsOpenable.keeps(g[i][j]) {
            assert(targets.contains((i, j)));
            let k = choose|k: int| 0 <= k < targets.len() && targets[k] == (i, j);
            assert(targets.reverse()[targets.len() - 1 - k] == (i, j));
            assert(pending[rest.len() + targets.len() - 1 - k] == (i, j));
        }
    }
}

/// `c` is a cell that the chord has clicked on and dealt with as far as
/// it has come: it is open, and if it has all its flags, every cell round
/// it is open, flagged, or yet to be opened.
pub(crate) open spec fn dealt_with(g: Seq<Seq<Tile>>, c: (int, int), pending: Seq<(int, int)>) -> bool {
    &&& inside(g, c.0, c.1)
    &&& g[c.0][c.1].state == TileState::Visible
    &&& satisfied(g, c.0, c.1) ==> clearing_around(g, c.0, c.1, pending)
}

/// Every cell yet to be opened is a cell without a mine and without a
/// flag.
pub(crate) open spec fn all_safe(g: Seq<Seq<Tile>>, pending: Seq<(int, int)>) -> bool {
    forall|k: int| 0 <= k < pending.len() ==> safe_target(g, (#[trigger] pending[k]).0, pending[k].1)
}

/// A click on a cell without a mine and without a flag, in a game under
/// way where every flag stands on a mine: the game goes on, the cell is
/// open, and every flag still stands, on a mine.
proof fn lemma_click_is_safe(v: BoardView, x: int, y: int, w: BoardView)
    requires
        v.wf(),
        v.phase.started(),
        !v.phase.ended(),
        flags_on_mines(v.grid),
        safe_target(v.grid, x, y),
        left_clicked(v, x, y, w),
    ensures
        w.wf(),
        w.phase.started(),
        !w.phase.ended(),
        counts_exact(w.grid),
        flags_on_mines(w.grid),
        only_opened(v.grid, w.grid),
        same_layout(v.grid, w.grid),
        flags_kept(v.grid, w.grid),
        forall|i: int, j: int| inside(v.grid, i, j) <==> inside(w.grid, i, j),
        w.grid[x][y].state == TileState::Visible,
{
    lemma_wf(v);
    lemma_wf(w);
    assert(!calls_for_reroll(v, x, y));
    assert(!blows_up(v.grid, x, y));
    assert(clicked(v.grid, x, y, w.grid));
    lemma_safe_click(v.grid, x, y, w.grid);
}

/// The cells left to open after a step hold no mine and no flag.
proof fn lemma_rest_is_safe(g: Seq<Seq<Tile>>, pending: Seq<(int, int)>, after: Seq<Seq<Tile>>, x: int, y: int)
    requires
        pending.len() > 0,
        all_safe(g, pending),
        same_layout(g, after),
        flags_kept(g, after),
        counts_exact(after),
        flags_on_mines(after),
    ensures
        all_safe(after, pending.drop_last() + chord_targets(after, x, y).reverse()),
{
    let rest = pending.drop_last();
    let targets = chord_targets(after, x, y);
    let next = rest + targets.reverse();
    lemma_targets_are_safe(after, x, y);
    assert forall|k: int| 0 <= k < next.len() implies safe_target(after, (#[trigger] next[k]).0, next[k].1) by {
        if k < rest.len() {
            let e = pending[k];
            assert(next[k] == e);
            assert(safe_target(g, e.0, e.1));
            assert(g[e.0].len() == after[e.0].len());
            assert(after[e.0][e.1].is_mine == g[e.0][e.1].is_mine);
            assert(after[e.0][e.1].state == TileState::Marked <==> g[e.0][e.1].state == TileState::Marked);
        } else {
            let i = k - rest.len();
            assert(next[k] == targets.reverse()[i]);
            assert(targets.reverse()[i] == targets[targets.len() - 1 - i]);
        }
    }
}

/// A cell that the chord has dealt with stays so over a step.
proof fn lemma_dealt_with_kept(
    g: Seq<Seq<Tile>>,
    pending: Seq<(int, int)>,
    after: Seq<Seq<Tile>>,
    more: Seq<(int, int)>,
    d: (int, int),
)
    requires
        pending.len() > 0,
        only_opened(g, after),
        same_layout(g, after),
        flags_kept(g, after),
        after[pending.last().0][pending.last().1].state == TileState::Visible,
        dealt_with(g, d, pending),
    ensures
        dealt_with(after, d, pending.drop_last() + more),
{
    assert(g[d.0].len() == after[d.0].len());
    assert(after[d.0][d.1] == g[d.0][d.1] || after[d.0][d.1] == g[d.0][d.1].opened());
    lemma_satisfied_kept(g, after, d.0, d.1);
    if satisfied(after, d.0, d.1) {
        lemma_clearing_goes_on(g, d.0, d.1, pending, after, more);
    }
}

/// The state of a chord at work where every flag stood on a mine when it
/// set out: the game is under way, every flag stands on a mine, no cell
/// yet to be opened holds a mine or a flag, and the cells of `done` are
/// dealt with.
spec fn going_on(v: BoardView, pending: Seq<(int, int)>, done: Seq<(int, int)>) -> bool {
    &&& v.wf()
    &&& v.phase.started()
    &&& !v.phase.ended()
    &&& flags_on_mines(v.grid)
    &&& all_safe(v.grid, pending)
    &&& forall|i: int| 0 <= i < done.len() ==> dealt_with(v.grid, #[trigger] done[i], pending)
}

/// One step of a chord at work.
proof fn lemma_step_goes_on(v: BoardView, pending: Seq<(int, int)>, done: Seq<(int, int)>, w: BoardView)
    requires
        going_on(v, pending, done),
        pending.len() > 0,
        left_clicked(v, pending.last().0, pending.last().1, w),
    ensures
        going_on(w, pending_after(w, pending), done.push(pending.last())),
{
    let c = pending.last();
    let more = chord_targets(w.grid, c.0, c.1).reverse();
    let next = pending_after(w, pending);
    let done2 = done.push(c);
    assert(safe_target(v.grid, c.0, c.1)) by {
        assert(pending[pending.len() - 1] == c);
    }
    lemma_click_is_safe(v, c.0, c.1, w);
    assert(next == pending.drop_last() + more);
    lemma_rest_is_safe(v.grid, pending, w.grid, c.0, c.1);
    assert forall|i: int| 0 <= i < done2.len() implies dealt_with(w.grid, #[trigger] done2[i], next) by {
        if i < done.len() {
            assert(done2[i] == done[i]);
            lemma_dealt_with_kept(v.grid, pending, w.grid, more, done[i]);
        } else {
            assert(done2[i] == c);
            if satisfied(w.grid, c.0, c.1) {
                lemma_targets_clear(w.grid, c.0, c.1, pending.drop_last());
            }
        }
    }
}

/// The cells that a chord at work has clicked on in its first `j` steps.
spec fn clicked_on(pendings: Seq<Seq<(int, int)>>, j: int) -> Seq<(int, int)> {
    Seq::new(j as nat, |i: int| pendings[i].last())
}

/// The step `k` of a chord at work.
proof fn lemma_step_of(boards: Seq<BoardView>, pendings: Seq<Seq<(int, int)>>, k: int)
    requires
        chord_steps(boards, pendings),
        0 <= k < boards.len() - 1,
    ensures
        pendings[k].len() > 0,
        left_clicked(boards[k], pendings[k].last().0, pendings[k].last().1, boards[k + 1]),
        pendings[k + 1] == pending_after(boards[k + 1], pendings[k]),
{
    assert(pendings[k].len() > 0);
}

/// A chord at work that set out where every flag stood on a mine.
proof fn lemma_set_out(v: BoardView, x: int, y: int)
    requires
        v.wf(),
        v.phase.started(),
        !v.phase.ended(),
        flags_on_mines(v.grid),
    ensures
        going_on(v, chord_targets(v.grid, x, y).reverse(), Seq::empty()),
{
    let targets = chord_targets(v.grid, x, y);
    let pending = targets.reverse();
    lemma_wf(v);
    lemma_targets_are_safe(v.grid, x, y);
    assert forall|k: int| 0 <= k < pending.len() implies safe_target(v.grid, (#[trigger] pending[k]).0, pending[k].1) by {
        assert(pending[k] == targets[targets.len() - 1 - k]);
    }
}

proof fn lemma_run_goes_on(boards: Seq<BoardView>, pendings: Seq<Seq<(int, int)>>, x: int, y: int, j: int)
    requires
        chord_steps(boards, pendings),
        boards[0].wf(),
        boards[0].phase.started(),
        !boards[0].phase.ended(),
        flags_on_mines(boards[0].grid),
        pendings[0] == chord_targets(boards[0].grid, x, y).reverse(),
        0 <= j < boards.len(),
    ensures
        going_on(boards[j], pendings[j], clicked_on(pendings, j)),
    decreases j,
{
    if j == 0 {
        lemma_set_out(boards[0], x, y);
        assert(clicked_on(pendings, 0) =~= Seq::empty());
    } else {
        lemma_run_goes_on(boards, pendings, x, y, j - 1);
        lemma_step_of(boards, pendings, j - 1);
        lemma_step_goes_on(boards[j - 1], pendings[j - 1], clicked_on(pendings, j - 1), boards[j]);
        assert(clicked_on(pendings, j) =~= clicked_on(pendings, j - 1).push(pendings[j - 1].last()));
    }
}

/// Where every flag stands on a mine, a chord in a game under way sets off
/// no mine, and it goes on from every cell that it clicks on: each of
/// them is open in the end, and round each that has all its flags, every
/// cell is open or flagged.
pub proof fn chord_goes_on(boards: Seq<BoardView>, pendings: Seq<Seq<(int, int)>>, x: int, y: int, k: int)
    requires
        chord_steps(boards, pendings),
        boards[0].wf(),
        boards[0].phase.started(),
        !boards[0].phase.ended(),
        flags_on_mines(boards[0].grid),
        pendings[0] == chord_targets(boards[0].grid, x, y).reverse(),
        pendings.last().len() == 0 || boards.last().phase.ended(),
        0 <= k < boards.len() - 1,
    ensures
        !boards.last().phase.ended(),
        flags_on_mines(boards.last().grid),
        inside(boards.last().grid, pendings[k].last().0, pendings[k].last().1),
        boards.last().grid[pendings[k].last().0][pendings[k].last().1].state == TileState::Visible,
        satisfied(boards.last().grid, pendings[k].last().0, pendings[k].last().1) ==> cleared_around(
            boards.last().grid,
            pendings[k].last().0,
            pendings[k].last().1,
        ),
{
    let last = boards.len() - 1;
    let g = boards[last].grid;
    let c = pendings[k].last();
    lemma_run_goes_on(boards, pendings, x, y, last);
    assert(clicked_on(pendings, last)[k] == c);
    assert(dealt_with(g, c, pendings[last]));
    if satisfied(g, c.0, c.1) {
        assert(clearing_around(g, c.0, c.1, pendings[last]));
        assert forall|i: int, j: int| inside(g, i, j) && touching(c.0, c.1, i, j) implies (#[trigger] g[i][j]).state
            == TileState::Visible || g[i][j].state == TileState::Marked by {
            assert(!pendings[last].contains((i, j)));
        }
    }
}

/// A chord that comes to its end with no cell left to open has clicked on
/// every cell that it had to open at any step.
proof fn lemma_all_clicked(boards: Seq<BoardView>, pendings: Seq<Seq<(int, int)>>, j: int, i: int) -> (k: int)
    requires
        chord_steps(boards, pendings),
        pendings.last().len() == 0,
        0 <= j < boards.len(),
        0 <= i < pendings[j].len(),
    ensures
        j <= k < boards.len() - 1,
        pendings[k].last() == pendings[j][i],
    decreases boards.len() - j,
{
    assert(j < boards.len() - 1);
    lemma_step_of(boards, pendings, j);
    if i == pendings[j].len() - 1 {
        j
    } else {
        assert(pendings[j + 1][i] == pendings[j][i]);
        lemma_all_clicked(boards, pendings, j + 1, i)
    }
}

/// Where every flag stands on a mine, a chord on `(x, y)` in a game under
/// way sets off no mine and opens every cell `n` that it has to open round
/// `(x, y)`; it goes on from `n`, so that round `n`, if `n` has all its
/// flags, every cell is open or flagged; and if `n` is empty, the whole
/// region of empty cells round `n` is open with the cells beside it, as
/// `region_is_open` says of every board.
pub proof fn chord_clears_what_it_opens(before: BoardView, x: int, y: int, after: BoardView, n: (int, int))
    requires
        before.wf(),
        before.phase.started(),
        !before.phase.ended(),
        flags_on_mines(before.grid),
        chorded(before, x, y, after),
        chord_targets(before.grid, x, y).contains(n),
    ensures
        !after.phase.ended(),
        flags_on_mines(after.grid),
        inside(after.grid, n.0, n.1),
        after.grid[n.0][n.1].state == TileState::Visible,
        satisfied(after.grid, n.0, n.1) ==> cleared_around(after.grid, n.0, n.1),
        regions_open(after.grid),
{
    let targets = chord_targets(before.grid, x, y);
    let pending = targets.reverse();
    assert(chord_runs(before, pending, after));
    let (boards, pendings) = choose|boards: Seq<BoardView>, pendings: Seq<Seq<(int, int)>>|
        {
            &&& #[trigger] chord_steps(boards, pendings)
            &&& boards[0] == before
            &&& pendings[0] == pending
            &&& boards.last() == after
            &&& pendings.last().len() == 0 || after.phase.ended()
        };
    let last = boards.len() - 1;
    lemma_run_goes_on(boards, pendings, x, y, last);
    let t = choose|t: int| 0 <= t < targets.len() && targets[t] == n;
    let i = targets.len() - 1 - t;
    assert(pending[i] == n);
    let k = lemma_all_clicked(boards, pendings, 0, i);
    chord_goes_on(boards, pendings, x, y, k);
    lemma_wf(after);
}

} // verus!
