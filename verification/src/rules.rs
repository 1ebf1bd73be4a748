//! What a board is, and what the clicks make of it.

use vstd::prelude::*;
use crate::animation::{ring_drawn, ring_leaves_the_matrix};
use crate::circle::perimeter_of;
use crate::clicks::{
    all_flagged, blows_up, changed_at, clicked, fire_cleared, flag_toggled, flag_toggled_at,
    lemma_click_cascades, lemma_clicked, opens, question_toggled, question_toggled_at, safe_opened, unchanged,
};
use crate::difficulty::Difficulty;
use crate::generate::fresh;
use crate::grid::{
    all_hidden, counts_exact, covered, inside, lemma_only_opened, lemma_same_layout, mine_cells, mines_all,
    only_opened, put, rectangular, regions_open, same_layout, touching,
};
use crate::phase::Phase;
use crate::region::{lemma_regions_opened, lemma_regions_put, lemma_regions_won};
use crate::sizes::{is_layout, lemma_layout_bounds, lemma_size_is_layout, playable, size_for};
use crate::tile::{Tile, TileState};

verus! {

/// What a board is: its preset, its cell matrix, its phase, and the area
/// that the terminal last offered.
pub ghost struct BoardView {
    pub difficulty: Difficulty,
    pub grid: Seq<Seq<Tile>>,
    pub phase: Phase,
    pub max_render_size: (u16, u16),
}

impl BoardView {
    /// The number of columns.
    pub open spec fn width(self) -> int {
        self.grid.len() as int
    }

    /// The number of cells of a column.
    pub open spec fn height(self) -> int {
        self.grid[0].len() as int
    }

    /// The board is one that a game can be in. The matrix has a layout of
    /// the preset, the preset's number of mines, and exact counts, and
    /// every open, empty cell of it has nothing but open cells beside it.
    /// Before the first click it has the layout for the area offered, and
    /// no cell bears a flag or a question mark. After a win every cell
    /// without a mine is open. After a loss the mine that went off is open.
    #[verifier::opaque]
    pub open spec fn wf(self) -> bool {
        &&& self.grid.len() >= 1
        &&& regions_open(self.grid)
        &&& is_layout(self.difficulty, self.width(), self.height())
        &&& rectangular(self.grid, self.width(), self.height())
        &&& counts_exact(self.grid)
        &&& mine_cells(self.grid).finite()
        &&& mine_cells(self.grid).len() == self.difficulty.mine_total()
        &&& self.phase is NotStarted ==> {
            &&& playable(self.difficulty, self.max_render_size)
            &&& size_for(self.difficulty, self.max_render_size) == (
                self.width() as usize,
                self.height() as usize,
            )
            &&& forall|x: int, y: int|
                inside(self.grid, x, y) ==> (#[trigger] self.grid[x][y]).state == TileState::Hidden
                    || self.grid[x][y].state == TileState::Visible
        }
        &&& self.phase is Won ==> forall|x: int, y: int|
            inside(self.grid, x, y) && !(#[trigger] self.grid[x][y]).is_mine ==> self.grid[x][y].state
                == TileState::Visible
        &&& self.phase matches Phase::Lost { epicenter, .. } ==> {
            &&& inside(self.grid, epicenter.0 as int, epicenter.1 as int)
            &&& self.grid[epicenter.0 as int][epicenter.1 as int].is_mine
            &&& self.grid[epicenter.0 as int][epicenter.1 as int].state == TileState::Visible
        }
    }

    /// The board is new: not started, and every cell hidden.
    pub open spec fn new_game(self) -> bool {
        &&& self.phase is NotStarted
        &&& all_hidden(self.grid)
    }
}

/// What holds of the matrix of every board that a game can be in.
pub proof fn lemma_wf(v: BoardView)
    requires
        v.wf(),
    ensures
        v.grid.len() >= 1,
        is_layout(v.difficulty, v.width(), v.height()),
        rectangular(v.grid, v.width(), v.height()),
        1 <= v.width() <= 60,
        1 <= v.height() <= 60,
        v.width() * v.height() == v.difficulty.area(),
        v.difficulty.mine_total() + 9 < v.width() * v.height(),
        counts_exact(v.grid),
        mine_cells(v.grid).finite(),
        mine_cells(v.grid).len() == v.difficulty.mine_total(),
        regions_open(v.grid),
{
    reveal(BoardView::wf);
    lemma_layout_bounds(v.difficulty, v.width(), v.height());
}

/// What holds of a board before the first click.
pub proof fn lemma_wf_before_start(v: BoardView)
    requires
        v.wf(),
        v.phase is NotStarted,
    ensures
        playable(v.difficulty, v.max_render_size),
        size_for(v.difficulty, v.max_render_size) == (v.width() as usize, v.height() as usize),
        forall|x: int, y: int|
            inside(v.grid, x, y) ==> (#[trigger] v.grid[x][y]).state == TileState::Hidden || v.grid[x][y].state
                == TileState::Visible,
{
    reveal(BoardView::wf);
}

/// What holds of a board once the game is won or lost.
pub proof fn lemma_wf_at_end(v: BoardView)
    requires
        v.wf(),
    ensures
        v.phase is Won ==> forall|x: int, y: int|
            inside(v.grid, x, y) && !(#[trigger] v.grid[x][y]).is_mine ==> v.grid[x][y].state
                == TileState::Visible,
        v.phase matches Phase::Lost { epicenter, .. } ==> {
            &&& inside(v.grid, epicenter.0 as int, epicenter.1 as int)
            &&& v.grid[epicenter.0 as int][epicenter.1 as int].is_mine
            &&& v.grid[epicenter.0 as int][epicenter.1 as int].state == TileState::Visible
        },
{
    reveal(BoardView::wf);
}

/// A new matrix of the preset's layout for the area makes a board that a
/// game can be in.
pub(crate) proof fn lemma_fresh_is_wf(v: BoardView)
    requires
        v.phase is NotStarted,
        playable(v.difficulty, v.max_render_size),
        fresh(
            v.grid,
            size_for(v.difficulty, v.max_render_size).0 as int,
            size_for(v.difficulty, v.max_render_size).1 as int,
            v.difficulty.mine_total() as int,
        ),
    ensures
        v.wf(),
        v.new_game(),
{
    reveal(BoardView::wf);
    reveal(regions_open);
    lemma_size_is_layout(v.difficulty, v.max_render_size);
    assert(v.grid[0].len() == size_for(v.difficulty, v.max_render_size).1);
    assert forall|x: int, y: int| inside(v.grid, x, y) implies (#[trigger] v.grid[x][y]).state
        == TileState::Hidden || v.grid[x][y].state == TileState::Visible by {}
}

/// A board of a game that was started stays one that a game can be in
/// whatever area the terminal offers.
pub(crate) proof fn lemma_resized(v: BoardView, max_render_size: (u16, u16))
    requires
        v.wf(),
        v.phase.started(),
    ensures
        (BoardView { max_render_size, ..v }).wf(),
{
    reveal(BoardView::wf);
}

/// A first click on `(x, y)` has the matrix laid out anew: `(x, y)` is a
/// cell that is not empty.
pub open spec fn calls_for_reroll(v: BoardView, x: int, y: int) -> bool {
    v.phase is NotStarted && inside(v.grid, x, y) && !v.grid[x][y].is_empty()
}

/// The phase after a click on a cell of a game that has not ended: the
/// game is in progress, with the moment of its first click kept.
pub open spec fn carries_on(before: Phase, after: Phase) -> bool {
    &&& after is InProgress
    &&& before.started() ==> after.first_move() == before.first_move()
}

/// `after` is the board `before` after a click that opens `(x, y)`.
/// Nothing happens once the game has ended, and nothing where `(x, y)` is
/// no cell. Else the game is started; on a first click on a cell that is
/// not empty the matrix is a new one in which the cell is empty; the click
/// is made on the matrix, and where it sets off a mine the game is lost,
/// with the cell as the centre of the animation. The cell of a first click
/// is open and empty afterwards.
pub open spec fn left_clicked(before: BoardView, x: int, y: int, after: BoardView) -> bool {
    &&& after.wf()
    &&& after.difficulty == before.difficulty
    &&& after.max_render_size == before.max_render_size
    &&& before.phase.ended() ==> after == before
    &&& !inside(before.grid, x, y) ==> after == before
    &&& !before.phase.ended() && inside(before.grid, x, y) ==> {
        let base = if calls_for_reroll(before, x, y) {
            covered(after.grid)
        } else {
            before.grid
        };
        &&& clicked(base, x, y, after.grid)
        &&& after.width() == before.width()
        &&& after.height() == before.height()
        &&& calls_for_reroll(before, x, y) ==> base[x][y].is_empty()
        &&& if blows_up(base, x, y) {
            &&& after.phase matches Phase::Lost { epicenter, animation_progress, .. }
            &&& epicenter.0 == x
            &&& epicenter.1 == y
            &&& animation_progress == 4
            &&& before.phase.started() ==> after.phase.first_move() == before.phase.first_move()
        } else {
            carries_on(before.phase, after.phase)
        }
    }
    &&& !before.phase.started() && inside(before.grid, x, y) ==> {
        &&& after.grid[x][y].state == TileState::Visible
        &&& after.grid[x][y].is_empty()
        &&& after.phase is InProgress
    }
}

/// `after` is the board `before` after a click that toggles the flag of
/// `(x, y)`. Nothing happens once the game has ended. Else a click on a
/// cell starts the game and toggles the flag of the cell. If then the
/// mines, and nothing but the mines, bear a flag, the game is won, and
/// every cell without a mine is open.
pub open spec fn right_clicked(before: BoardView, x: int, y: int, after: BoardView) -> bool {
    &&& after.wf()
    &&& after.difficulty == before.difficulty
    &&& after.max_render_size == before.max_render_size
    &&& before.phase.ended() ==> after == before
    &&& !before.phase.ended() ==> {
        let toggled = flag_toggled_at(before.grid, x, y);
        &&& before.phase.started() ==> after.phase.first_move() == before.phase.first_move()
        &&& if all_flagged(toggled) {
            &&& after.phase is Won
            &&& safe_opened(toggled, after.grid)
        } else {
            &&& after.grid == toggled
            &&& if inside(before.grid, x, y) {
                after.phase is InProgress
            } else {
                after.phase == before.phase
            }
        }
    }
}

/// `after` is the board `before` after a click that toggles the question
/// mark of `(x, y)`. Nothing happens once the game has ended. Else a
/// click on a cell starts the game and toggles the mark of the cell.
pub open spec fn middle_clicked(before: BoardView, x: int, y: int, after: BoardView) -> bool {
    &&& after.wf()
    &&& after.difficulty == before.difficulty
    &&& after.max_render_size == before.max_render_size
    &&& before.phase.ended() ==> after == before
    &&& !before.phase.ended() ==> {
        &&& after.grid == question_toggled_at(before.grid, x, y)
        &&& before.phase.started() ==> after.phase == before.phase
        &&& !before.phase.started() ==> if inside(before.grid, x, y) {
            after.phase is InProgress
        } else {
            after.phase is NotStarted
        }
    }
}

/// `after` is the board `before` with the light of the animation put out.
pub open spec fn doused(before: BoardView, after: BoardView) -> bool {
    &&& after.wf()
    &&& fire_cleared(before.grid, after.grid)
    &&& after == BoardView { grid: after.grid, ..before }
}

/// `after` is the lost board `before` after a tick of the animation: the
/// ring round the mine that went off, with a radius of as many quarters of
/// a cell as the animation has made ticks, is drawn, and the ticks are
/// counted as far as the counter goes.
pub open spec fn animated(before: BoardView, after: BoardView) -> bool {
    &&& after.wf()
    &&& after.difficulty == before.difficulty
    &&& after.max_render_size == before.max_render_size
    &&& before.phase matches Phase::Lost { started_at, ended_at, epicenter, animation_progress }
    &&& ring_drawn(
        before.grid,
        perimeter_of(epicenter.0 as int, epicenter.1 as int, animation_progress as int),
        after.grid,
    )
    &&& after.phase == (Phase::Lost {
        started_at,
        ended_at,
        epicenter,
        animation_progress: if animation_progress < u32::MAX {
            (animation_progress + 1) as u32
        } else {
            animation_progress
        },
    })
}

/// The animation of a lost game comes to an end: once it has made 476
/// ticks, which carry the ring past any board, a tick opens every mine.
pub proof fn animation_ends(before: BoardView, after: BoardView)
    requires
        before.wf(),
        animated(before, after),
        before.phase->animation_progress >= 480,
    ensures
        mines_all(after.grid, TileState::Visible),
{
    reveal(BoardView::wf);
    let center = before.phase->epicenter;
    let quarters = before.phase->animation_progress as int;
    lemma_layout_bounds(before.difficulty, before.width(), before.height());
    ring_leaves_the_matrix(before.grid, before.width(), before.height(), center.0 as int, center.1 as int, quarters);
    assert forall|x: int, y: int| inside(after.grid, x, y) && (#[trigger] after.grid[x][y]).is_mine implies after.grid[x][y].state
        == TileState::Visible by {
        assert(before.grid[x].len() == after.grid[x].len());
        assert(inside(before.grid, x, y));
    }
}

/// `after` is the board `before` made ready for a click on `(x, y)`: the
/// same board, but with a new matrix in which `(x, y)` is empty where the
/// click calls for that.
pub(crate) open spec fn settled(before: BoardView, x: int, y: int, after: BoardView) -> bool {
    &&& after.wf()
    &&& after.phase == before.phase
    &&& after.difficulty == before.difficulty
    &&& after.max_render_size == before.max_render_size
    &&& after.width() == before.width()
    &&& after.height() == before.height()
    &&& !calls_for_reroll(before, x, y) ==> after == before
    &&& calls_for_reroll(before, x, y) ==> all_hidden(after.grid) && after.grid[x][y].is_empty()
}

/// The phase after the click on `(x, y)` of a board made ready for it.
pub(crate) open spec fn phase_after_click(ready: BoardView, x: int, y: int, phase: Phase) -> bool {
    if blows_up(ready.grid, x, y) {
        &&& phase matches Phase::Lost { epicenter, animation_progress, .. }
        &&& epicenter.0 == x
        &&& epicenter.1 == y
        &&& animation_progress == 4
        &&& ready.phase.started() ==> phase.first_move() == ready.phase.first_move()
    } else {
        carries_on(ready.phase, phase)
    }
}

/// A matrix whose cells were all hidden is found again by covering what
/// opening some of its cells made of it.
pub(crate) proof fn lemma_covered(base: Seq<Seq<Tile>>, after: Seq<Seq<Tile>>)
    requires
        all_hidden(base),
        only_opened(base, after),
    ensures
        covered(after) == base,
{
    assert forall|i: int| 0 <= i < base.len() implies #[trigger] covered(after)[i] =~= base[i] by {
        assert(after[i].len() == base[i].len());
        assert forall|j: int| 0 <= j < base[i].len() implies covered(after)[i][j] == base[i][j] by {
            assert(inside(base, i, j));
            assert(after[i][j] == base[i][j] || after[i][j] == base[i][j].opened());
            assert(base[i][j].state == TileState::Hidden && !base[i][j].fire);
        }
    }
    assert(covered(after) =~~= base);
}

/// The phase fits a matrix: after a win every cell without a mine is open,
/// after a loss the mine that went off is open.
pub(crate) open spec fn phase_fits(grid: Seq<Seq<Tile>>, phase: Phase) -> bool {
    &&& phase.started()
    &&& phase is Won ==> forall|x: int, y: int|
        inside(grid, x, y) && !(#[trigger] grid[x][y]).is_mine ==> grid[x][y].state == TileState::Visible
    &&& phase matches Phase::Lost { epicenter, .. } ==> {
        &&& inside(grid, epicenter.0 as int, epicenter.1 as int)
        &&& grid[epicenter.0 as int][epicenter.1 as int].is_mine
        &&& grid[epicenter.0 as int][epicenter.1 as int].state == TileState::Visible
    }
}

/// A board stays one that a game can be in when its matrix keeps its
/// mines and counts and the phase fits the matrix, or is unchanged where
/// cells were only opened.
pub(crate) proof fn lemma_still_wf(v: BoardView, after: Seq<Seq<Tile>>, phase: Phase)
    requires
        v.wf(),
        same_layout(v.grid, after),
        regions_open(after),
        phase_fits(after, phase) || (phase == v.phase && only_opened(v.grid, after)),
    ensures
        (BoardView { grid: after, phase, ..v }).wf(),
        after.len() == v.grid.len(),
        after[0].len() == v.grid[0].len(),
{
    reveal(BoardView::wf);
    lemma_same_layout(v.grid, after);
    assert(after[0].len() == v.grid[0].len());
    let w = BoardView { grid: after, phase, ..v };
    assert(rectangular(after, w.width(), w.height()));
    if !phase_fits(after, phase) {
        assert forall|x: int, y: int| inside(after, x, y) implies #[trigger] after[x][y] == v.grid[x][y]
            || after[x][y] == v.grid[x][y].opened() by {
            assert(inside(v.grid, x, y));
        }
        if phase is NotStarted {
            assert forall|x: int, y: int| inside(after, x, y) implies (#[trigger] after[x][y]).state
                == TileState::Hidden || after[x][y].state == TileState::Visible by {
                assert(inside(v.grid, x, y));
                assert(after[x][y] == v.grid[x][y] || after[x][y] == v.grid[x][y].opened());
                assert(v.grid[x][y].state == TileState::Hidden || v.grid[x][y].state == TileState::Visible);
            }
        }
        if phase is Won {
            assert forall|x: int, y: int| inside(after, x, y) && !(#[trigger] after[x][y]).is_mine implies after[x][y].state
                == TileState::Visible by {
                assert(inside(v.grid, x, y));
                assert(after[x][y] == v.grid[x][y] || after[x][y] == v.grid[x][y].opened());
                assert(!v.grid[x][y].is_mine);
            }
        }
        if phase is Lost {
            let e = phase->epicenter;
            assert(inside(v.grid, e.0 as int, e.1 as int));
            assert(after[e.0 as int][e.1 as int] == v.grid[e.0 as int][e.1 as int] || after[e.0 as int][e.1 as int]
                == v.grid[e.0 as int][e.1 as int].opened());
        }
    }
}

/// A board stays one that a game can be in when its matrix keeps its
/// mines, its counts and the states of its cells.
pub(crate) proof fn lemma_keeps_states(v: BoardView, after: Seq<Seq<Tile>>)
    requires
        v.wf(),
        same_layout(v.grid, after),
        forall|x: int, y: int| inside(v.grid, x, y) ==> (#[trigger] after[x][y]).state == v.grid[x][y].state,
    ensures
        (BoardView { grid: after, ..v }).wf(),
        after.len() == v.grid.len(),
        after[0].len() == v.grid[0].len(),
{
    reveal(BoardView::wf);
    lemma_same_layout(v.grid, after);
    assert(after[0].len() == v.grid[0].len());
    let w = BoardView { grid: after, ..v };
    assert(rectangular(after, w.width(), w.height()));
    assert forall|x: int, y: int| inside(after, x, y) implies inside(v.grid, x, y) by {
        assert(after[x].len() == v.grid[x].len());
    }
    assert(regions_open(after)) by {
        reveal(regions_open);
        assert forall|i: int, j: int, a: int, b: int|
            #![trigger touching(i, j, a, b), after[i][j]]
            inside(after, i, j) && after[i][j].state == TileState::Visible && after[i][j].is_empty() && touching(
                i,
                j,
                a,
                b,
            ) && inside(after, a, b) implies after[a][b].state == TileState::Visible by {
            assert(inside(v.grid, i, j) && inside(v.grid, a, b));
            assert(v.grid[i][j].is_mine == after[i][j].is_mine && v.grid[i][j].bombs_near == after[i][j].bombs_near);
            assert(touching(i, j, a, b));
            assert(v.grid[i][j].state == TileState::Visible && v.grid[i][j].is_empty());
        }
    }
    if v.phase is Lost {
        let e = v.phase->epicenter;
        assert(inside(v.grid, e.0 as int, e.1 as int));
    }
}

/// A board that is not started is one that a game can be in with any new
/// matrix of its dimensions and its preset's number of mines.
pub(crate) proof fn lemma_new_matrix(v: BoardView, g: Seq<Seq<Tile>>)
    requires
        v.wf(),
        v.phase is NotStarted,
        fresh(g, v.width(), v.height(), v.difficulty.mine_total() as int),
    ensures
        (BoardView { grid: g, ..v }).wf(),
        g.len() == v.grid.len(),
        g[0].len() == v.grid[0].len(),
{
    reveal(BoardView::wf);
    reveal(regions_open);
    let w = BoardView { grid: g, ..v };
    assert(g[0].len() == v.height());
    assert forall|x: int, y: int| inside(g, x, y) implies (#[trigger] g[x][y]).state == TileState::Hidden
        || g[x][y].state == TileState::Visible by {}
}

/// Replacing a cell by one with the same mine and count keeps the mines
/// and the counts of the matrix.
pub(crate) proof fn lemma_put_keeps_layout(g: Seq<Seq<Tile>>, x: int, y: int, t: Tile)
    requires
        inside(g, x, y) ==> t.is_mine == g[x][y].is_mine && t.bombs_near == g[x][y].bombs_near,
    ensures
        same_layout(g, put(g, x, y, t)),
{
    let p = put(g, x, y, t);
    assert forall|i: int, j: int| inside(g, i, j) implies (#[trigger] g[i][j]).is_mine == p[i][j].is_mine
        && g[i][j].bombs_near == p[i][j].bombs_near by {}
}

/// A matrix that differs from another in one cell is the other with that
/// cell put in.
pub(crate) proof fn lemma_changed_is_put(g: Seq<Seq<Tile>>, x: int, y: int, t: Tile, after: Seq<Seq<Tile>>)
    requires
        if inside(g, x, y) {
            changed_at(g, x, y, t, after)
        } else {
            unchanged(g, after)
        },
    ensures
        after == put(g, x, y, t),
{
    let p = put(g, x, y, t);
    assert forall|i: int| 0 <= i < p.len() implies #[trigger] after[i] =~= p[i] by {
        assert(after[i].len() == g[i].len());
        assert forall|j: int| 0 <= j < p[i].len() implies after[i][j] == p[i][j] by {
            assert(inside(g, i, j));
        }
    }
    assert(after =~~= p);
}

/// A board with a mine on it that is not started has not all its mines
/// flagged.
pub(crate) proof fn lemma_no_win_before_start(v: BoardView)
    requires
        v.wf(),
        v.phase is NotStarted,
    ensures
        !all_flagged(v.grid),
{
    reveal(BoardView::wf);
    let c = mine_cells(v.grid).choose();
    assert(mine_cells(v.grid).len() > 0);
    assert(mine_cells(v.grid).contains(c));
    assert(inside(v.grid, c.0, c.1));
    assert(v.grid[c.0][c.1].state == TileState::Hidden || v.grid[c.0][c.1].state == TileState::Visible);
}

/// A board stays one that a game can be in when a click toggles a flag or
/// a question mark.
pub(crate) proof fn lemma_toggled(before: BoardView, x: int, y: int, t: Tile, after: BoardView)
    requires
        before.wf(),
        !before.phase.ended(),
        t == flag_toggled(before.grid[x][y]) || t == question_toggled(before.grid[x][y]),
        after.grid == put(before.grid, x, y, t),
        after.difficulty == before.difficulty,
        after.max_render_size == before.max_render_size,
        if inside(before.grid, x, y) {
            after.phase is InProgress && (before.phase.started() ==> after.phase == before.phase)
        } else {
            after.phase == before.phase
        },
    ensures
        after.wf(),
{
    if inside(before.grid, x, y) {
        lemma_wf(before);
        lemma_put_keeps_layout(before.grid, x, y, t);
        lemma_regions_put(before.grid, x, y, t);
        lemma_still_wf(before, after.grid, after.phase);
        assert(after == BoardView { grid: after.grid, phase: after.phase, ..before });
    } else {
        assert(after == before);
    }
}

/// The board after a click that toggled a flag and won the game.
pub(crate) proof fn lemma_won(before: BoardView, x: int, y: int, toggled: BoardView, after: BoardView)
    requires
        before.wf(),
        !before.phase.ended(),
        toggled.wf(),
        toggled.grid == flag_toggled_at(before.grid, x, y),
        before.phase.started() ==> toggled.phase == before.phase,
        all_flagged(toggled.grid),
        safe_opened(toggled.grid, after.grid),
        after.phase is Won,
        toggled.phase.started() ==> after.phase.first_move() == toggled.phase.first_move(),
        after.difficulty == toggled.difficulty,
        after.max_render_size == toggled.max_render_size,
        toggled.difficulty == before.difficulty,
        toggled.max_render_size == before.max_render_size,
    ensures
        right_clicked(before, x, y, after),
{
    lemma_wf(toggled);
    assert(same_layout(toggled.grid, after.grid)) by {
        assert forall|i: int, j: int| inside(toggled.grid, i, j) implies (
        #[trigger] toggled.grid[i][j]).is_mine == after.grid[i][j].is_mine && toggled.grid[i][j].bombs_near
            == after.grid[i][j].bombs_near by {}
    }
    lemma_regions_won(toggled.grid, after.grid);
    assert(phase_fits(after.grid, after.phase)) by {
        assert forall|i: int, j: int| inside(after.grid, i, j) && !(#[trigger] after.grid[i][j]).is_mine implies after.grid[i][j].state
            == TileState::Visible by {
            assert(toggled.grid[i].len() == after.grid[i].len());
            assert(inside(toggled.grid, i, j));
        }
    }
    lemma_still_wf(toggled, after.grid, after.phase);
    assert(after == BoardView { grid: after.grid, phase: after.phase, ..toggled });
}

pub(crate) proof fn lemma_click_keeps_wf(ready: BoardView, x: int, y: int, after: BoardView)
    requires
        ready.wf(),
        !ready.phase.ended(),
        clicked(ready.grid, x, y, after.grid),
        phase_after_click(ready, x, y, after.phase),
        after.difficulty == ready.difficulty,
        after.max_render_size == ready.max_render_size,
    ensures
        after.wf(),
        only_opened(ready.grid, after.grid),
        after.width() == ready.width(),
        after.height() == ready.height(),
        opens(ready.grid, x, y) ==> after.grid[x][y].state == TileState::Visible,
{
    lemma_clicked(ready.grid, x, y, after.grid);
    lemma_only_opened(ready.grid, after.grid);
    assert(phase_fits(after.grid, after.phase)) by {
        if blows_up(ready.grid, x, y) {
            assert(opens(ready.grid, x, y));
            assert(ready.grid[x].len() == after.grid[x].len());
            assert(after.grid[x][y] == ready.grid[x][y] || after.grid[x][y] == ready.grid[x][y].opened());
        }
    }
    lemma_wf(ready);
    lemma_click_cascades(ready.grid, x, y, after.grid);
    lemma_regions_opened(ready.grid, after.grid);
    lemma_still_wf(ready, after.grid, after.phase);
    assert(after == BoardView { grid: after.grid, phase: after.phase, ..ready });
}

pub(crate) proof fn lemma_left_clicked(before: BoardView, ready: BoardView, x: int, y: int, after: BoardView)
    requires
        before.wf(),
        !before.phase.ended(),
        inside(before.grid, x, y),
        settled(before, x, y, ready),
        clicked(ready.grid, x, y, after.grid),
        phase_after_click(ready, x, y, after.phase),
        after.difficulty == ready.difficulty,
        after.max_render_size == ready.max_render_size,
    ensures
        left_clicked(before, x, y, after),
{
    lemma_click_keeps_wf(ready, x, y, after);
    let base = if calls_for_reroll(before, x, y) {
        covered(after.grid)
    } else {
        before.grid
    };
    assert(base == ready.grid) by {
        if calls_for_reroll(before, x, y) {
            lemma_covered(ready.grid, after.grid);
        }
    }
    assert(!before.phase.started() && inside(before.grid, x, y) ==> after.grid[x][y].state
        == TileState::Visible && after.grid[x][y].is_empty() && after.phase is InProgress) by {
        if !before.phase.started() && inside(before.grid, x, y) {
            lemma_wf(before);
            lemma_wf(ready);
            lemma_wf_before_start(ready);
            assert(inside(ready.grid, x, y));
            assert(ready.grid[x][y].is_empty());
            assert(ready.grid[x][y].state == TileState::Hidden || ready.grid[x][y].state == TileState::Visible);
            assert(after.grid[x][y] == ready.grid[x][y] || after.grid[x][y] == ready.grid[x][y].opened());
        }
    }
}

} // verus!
