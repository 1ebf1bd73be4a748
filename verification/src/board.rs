//! The board: the cell matrix of one game and the phase the game is in.

use vstd::prelude::*;
use std::time::Instant;
use crate::animation::draw_ring;
use crate::chord::{
    chord_measure, chord_steps, chorded, chording, lemma_chord_end, lemma_chord_goes_on, lemma_chord_start,
    lemma_chord_step, pending_after, push_reversed,
};
use crate::circle::perimeter_of;
use crate::clicks::{
    chord_cells, chord_targets, flag_toggled, open_cell, question_toggled, toggle_flag, toggle_question,
};
use crate::clock::now;
use crate::difficulty::Difficulty;
use crate::flood::{flood_fill, flood_of, flood_spares_mines};
use crate::generate::{fresh, gen_tiles, gen_tiles_sparing};
use crate::grid::{
    closed_cells, grid_of, inside, lemma_only_opened, mines_all, mines_around, rectangular, same_layout,
};
use crate::phase::Phase;
use crate::region::{lemma_flood_cascades, lemma_regions_opened, lemma_regions_ring};
use crate::render::{glyph_views, line_views, matrix_glyphs, row_glyphs, Glyph};
use crate::rules::{
    animated, calls_for_reroll, doused, left_clicked, middle_clicked, right_clicked, lemma_changed_is_put,
    lemma_fresh_is_wf, lemma_keeps_states, lemma_left_clicked, lemma_new_matrix, lemma_no_win_before_start,
    lemma_wf, lemma_wf_at_end, lemma_wf_before_start, lemma_resized, lemma_still_wf, lemma_toggled,
    lemma_won, phase_fits, settled, BoardView,
};
use crate::sizes::{get_compatible_sizes, lemma_size_is_layout, playable, size_for};
use crate::sweep::{all_mines_in, douse, flags_match_mines, open_safe};
use crate::tile::{Tile, TileState};
use crate::walker::positions;

verus! {

/// How often a new matrix is tried for a first click before one is laid
/// out round the click.
pub const REROLL_LIMIT: usize = 1024;

/// The board of one game.
pub struct Board {
    difficulty: Difficulty,
    tiles: Vec<Vec<Tile>>,
    phase: Phase,
    max_render_size: (u16, u16),
}

impl View for Board {
    type V = BoardView;

    closed spec fn view(&self) -> BoardView {
        BoardView {
            difficulty: self.difficulty,
            grid: grid_of(self.tiles),
            phase: self.phase,
            max_render_size: self.max_render_size,
        }
    }
}

/// Whether the cell `(x, y)` exists and is not empty.
fn not_empty_at(tiles: &Vec<Vec<Tile>>, x: usize, y: usize) -> (yes: bool)
    ensures
        yes == (inside(grid_of(*tiles), x as int, y as int) && !tiles[x as int][y as int].is_empty()),
{
    x < tiles.len() && y < tiles[x].len() && (tiles[x][y].is_mine() || tiles[x][y].bombs_near() > 0)
}

/// One line of the matrix: the line `sub_line` of the cells of row `y`.
fn draw_row(tiles: &Vec<Vec<Tile>>, y: usize, sub_line: usize) -> (line: Vec<Glyph>)
    requires
        sub_line < 3,
        forall|x: int| 0 <= x < tiles.len() ==> y < (#[trigger] grid_of(*tiles)[x]).len(),
        forall|i: int, j: int| inside(grid_of(*tiles), i, j) ==> (#[trigger] grid_of(*tiles)[i][j]).bombs_near <= 8,
    ensures
        glyph_views(line@) == row_glyphs(grid_of(*tiles), y as int, sub_line as int, tiles.len() as int),
{
    let ghost g = grid_of(*tiles);
    let mut span_vec: Vec<Glyph> = Vec::new();
    let mut x: usize = 0;
    assert(glyph_views(span_vec@) =~= row_glyphs(g, y as int, sub_line as int, 0));
    while x < tiles.len()
        invariant
            sub_line < 3,
            x <= tiles.len(),
            g == grid_of(*tiles),
            forall|x: int| 0 <= x < tiles.len() ==> y < (#[trigger] g[x]).len(),
            forall|i: int, j: int| inside(g, i, j) ==> (#[trigger] g[i][j]).bombs_near <= 8,
            glyph_views(span_vec@) == row_glyphs(g, y as int, sub_line as int, x as int),
        decreases tiles.len() - x,
    {
        assert(y < g[x as int].len());
        assert(inside(g, x as int, y as int));
        let ghost before = glyph_views(span_vec@);
        let mut spans = tiles[x][y].as_span(sub_line);
        let ghost added = glyph_views(spans@);
        span_vec.append(&mut spans);
        assert(glyph_views(span_vec@) =~= before + added);
        x += 1;
    }
    span_vec
}

impl Board {
    /// The board is one that a game can be in.
    pub open spec fn wf(&self) -> bool {
        self@.wf()
    }

    /// A new board of the preset, of the layout that fits the area. The
    /// area has to be large enough for the smallest board and for a board
    /// of the preset.
    pub fn new(difficulty: Difficulty, max_render_size: (u16, u16)) -> (board: Board)
        requires
            playable(difficulty, max_render_size),
        ensures
            board.wf(),
            board@.new_game(),
            board@.difficulty == difficulty,
            board@.max_render_size == max_render_size,
    {
        let sizes = get_compatible_sizes(max_render_size);
        proof {
            lemma_size_is_layout(difficulty, max_render_size);
        }
        let tiles = gen_tiles(difficulty, &sizes);
        let board = Board { difficulty, tiles, phase: Phase::NotStarted, max_render_size };
        proof {
            lemma_fresh_is_wf(board@);
        }
        board
    }

    pub fn difficulty(&self) -> (d: Difficulty)
        ensures
            d == self@.difficulty,
    {
        self.difficulty
    }

    /// The area that the terminal last offered.
    pub fn max_render_size(&self) -> (size: (u16, u16))
        ensures
            size == self@.max_render_size,
    {
        self.max_render_size
    }

    /// The phase of the game.
    pub fn phase(&self) -> (phase: Phase)
        ensures
            phase == self@.phase,
    {
        self.phase
    }

    pub fn first_move_time(&self) -> (moment: Option<Instant>)
        ensures
            moment == self@.phase.first_move(),
    {
        match self.phase {
            Phase::NotStarted => None,
            Phase::InProgress { started_at } => Some(started_at),
            Phase::Won { started_at, .. } => Some(started_at),
            Phase::Lost { started_at, .. } => Some(started_at),
        }
    }

    pub fn last_move_time(&self) -> (moment: Option<Instant>)
        ensures
            moment == self@.phase.last_move(),
    {
        match self.phase {
            Phase::Won { ended_at, .. } => Some(ended_at),
            Phase::Lost { ended_at, .. } => Some(ended_at),
            _ => None,
        }
    }

    /// The cell `(x, y)`, where there is one.
    pub fn tile(&self, x: usize, y: usize) -> (tile: Option<Tile>)
        ensures
            tile == (if inside(self@.grid, x as int, y as int) {
                Some(self@.grid[x as int][y as int])
            } else {
                None
            }),
    {
        if x < self.tiles.len() && y < self.tiles[x].len() {
            Some(self.tiles[x][y])
        } else {
            None
        }
    }

    pub fn get_board_size(&self) -> (size: (usize, usize))
        requires
            self.wf(),
        ensures
            size.0 == self@.width(),
            size.1 == self@.height(),
            1 <= size.0 <= 60,
            1 <= size.1 <= 60,
    {
        proof {
            lemma_wf(self@);
        }
        let x = self.tiles.len();
        let y = self.tiles[0].len();
        (x, y)
    }

    /// Takes note of the area that the terminal offers. A game that has
    /// not started gets a new matrix of the layout that fits the area,
    /// which has to be large enough; a game under way keeps its matrix.
    pub fn set_max_board_size(&mut self, max_render_size: (u16, u16))
        requires
            old(self).wf(),
            !old(self)@.phase.started() ==> playable(old(self)@.difficulty, max_render_size),
        ensures
            final(self).wf(),
            final(self)@.difficulty == old(self)@.difficulty,
            final(self)@.phase == old(self)@.phase,
            final(self)@.max_render_size == max_render_size,
            old(self)@.phase.started() ==> final(self)@.grid == old(self)@.grid,
            !old(self)@.phase.started() ==> final(self)@.new_game(),
    {
        proof {
            if old(self)@.phase.started() {
                lemma_resized(old(self)@, max_render_size);
            }
        }
        self.max_render_size = max_render_size;
        if !self.phase.is_started() {
            proof {
                lemma_size_is_layout(self.difficulty, max_render_size);
            }
            self.tiles = gen_tiles(self.difficulty, &get_compatible_sizes(self.max_render_size));
            proof {
                lemma_fresh_is_wf(self@);
            }
        }
    }

    /// A click that opens the cell `(x, y)`. Nothing happens once the game
    /// has ended, and nothing where `(x, y)` is no cell. Else the game is
    /// started, and on a first click on a cell that is not empty the matrix
    /// is laid out anew, `REROLL_LIMIT` times at most and then with no mine
    /// on the cell or beside it, so that the cell is empty. Then the click
    /// is made: on a mine, the game is lost.
    pub fn left_click(&mut self, x: usize, y: usize)
        requires
            old(self).wf(),
        ensures
            left_clicked(old(self)@, x as int, y as int, final(self)@),
    {
        if self.phase.is_ended() || !(x < self.tiles.len() && y < self.tiles[x].len()) {
            return ;
        }
        let ghost v0 = self@;
        if !self.phase.is_started() {
            self.settle_first_click(x, y);
        }
        let ghost v1 = self@;
        let started_at = match self.phase {
            Phase::InProgress { started_at } => started_at,
            _ => now(),
        };
        let lost = open_cell(&mut self.tiles, x, y);
        if lost {
            self.phase = Phase::Lost { started_at, ended_at: now(), epicenter: (x, y), animation_progress: 4 };
        } else {
            self.phase = Phase::InProgress { started_at };
        }
        proof {
            lemma_left_clicked(v0, v1, x as int, y as int, self@);
        }
    }

    /// Lays the matrix out anew for a first click on `(x, y)`, where
    /// `(x, y)` is a cell that is not empty: `REROLL_LIMIT` times at most
    /// as a new game has it, and then with no mine on the cell or beside
    /// it.
    fn settle_first_click(&mut self, x: usize, y: usize)
        requires
            old(self).wf(),
            old(self)@.phase is NotStarted,
        ensures
            settled(old(self)@, x as int, y as int, final(self)@),
    {
        let ghost v0 = self@;
        proof {
            lemma_wf(self@);
            lemma_wf_before_start(self@);
        }
        let mut rolls: usize = 0;
        while rolls < REROLL_LIMIT && not_empty_at(&self.tiles, x, y)
            invariant
                v0.wf(),
                v0.phase is NotStarted,
                playable(v0.difficulty, v0.max_render_size),
                size_for(v0.difficulty, v0.max_render_size) == (v0.width() as usize, v0.height() as usize),
                1 <= v0.width() <= 60,
                1 <= v0.height() <= 60,
                v0.difficulty.mine_total() + 9 < v0.width() * v0.height(),
                self@ == (BoardView { grid: self@.grid, ..v0 }),
                self.difficulty == v0.difficulty,
                self.max_render_size == v0.max_render_size,
                rolls == 0 ==> self@.grid == v0.grid,
                rolls > 0 ==> calls_for_reroll(v0, x as int, y as int) && fresh(
                    self@.grid,
                    v0.width(),
                    v0.height(),
                    v0.difficulty.mine_total() as int,
                ),
            decreases REROLL_LIMIT - rolls,
        {
            self.tiles = gen_tiles(self.difficulty, &get_compatible_sizes(self.max_render_size));
            rolls += 1;
        }
        if not_empty_at(&self.tiles, x, y) {
            self.tiles = gen_tiles_sparing(self.difficulty, &get_compatible_sizes(self.max_render_size), (x, y));
        }
        proof {
            if calls_for_reroll(v0, x as int, y as int) {
                lemma_new_matrix(v0, self@.grid);
            } else {
                assert(self@ == v0);
            }
        }
    }

    /// A click that toggles the flag of the cell `(x, y)`. Nothing happens
    /// once the game has ended. Else a click on a cell starts the game and
    /// toggles the flag of the cell. If then the mines, and nothing but
    /// the mines, bear a flag, the game is won, and every cell without a
    /// mine is opened.
    pub fn right_click(&mut self, x: usize, y: usize)
        requires
            old(self).wf(),
        ensures
            right_clicked(old(self)@, x as int, y as int, final(self)@),
    {
        if self.phase.is_ended() {
            return ;
        }
        let ghost v0 = self@;
        let hit = toggle_flag(&mut self.tiles, x, y);
        if hit && !self.phase.is_started() {
            self.phase = Phase::InProgress { started_at: now() };
        }
        let ghost v1 = self@;
        proof {
            let t = flag_toggled(v0.grid[x as int][y as int]);
            lemma_changed_is_put(v0.grid, x as int, y as int, t, v1.grid);
            lemma_toggled(v0, x as int, y as int, t, v1);
        }
        if flags_match_mines(&self.tiles) {
            proof {
                if v1.phase is NotStarted {
                    lemma_no_win_before_start(v1);
                }
            }
            let started_at = match self.phase {
                Phase::InProgress { started_at } => started_at,
                _ => now(),
            };
            self.phase = Phase::Won { started_at, ended_at: now() };
            open_safe(&mut self.tiles);
            proof {
                lemma_won(v0, x as int, y as int, v1, self@);
            }
        }
    }

    /// A chord on `(x, y)`: where `(x, y)` is a cell with as many flags
    /// around it as it has mines around it, each cell beside it that is
    /// neither flagged nor open is opened by a click and then chorded in
    /// its turn, and so on; the cells that a chord opens are done one
    /// after the other, each with all that follows from it. Nothing
    /// happens once the game has ended.
    pub fn do_control_click(&mut self, x: usize, y: usize)
        requires
            old(self).wf(),
        ensures
            chorded(old(self)@, x as int, y as int, final(self)@),
    {
        if self.phase.is_ended() {
            return ;
        }
        let ghost v0 = self@;
        let targets = chord_cells(&mut self.tiles, x, y);
        let mut pending: Vec<(usize, usize)> = Vec::new();
        push_reversed(&mut pending, &targets);
        let ghost mut boards = seq![v0];
        let ghost mut pendings = seq![positions(pending@)];
        proof {
            assert(positions(pending@) =~= chord_targets(v0.grid, x as int, y as int).reverse());
            lemma_chord_start(v0, x as int, y as int);
        }
        while pending.len() > 0 && !self.phase.is_ended()
            invariant
                self.wf(),
                chord_steps(boards, pendings),
                boards[0] == v0,
                pendings[0] == chord_targets(v0.grid, x as int, y as int).reverse(),
                boards.last() == self@,
                pendings.last() == positions(pending@),
                chording(v0, x as int, y as int, self@, positions(pending@)),
                closed_cells(self@.grid).finite(),
                chord_measure(self@, positions(pending@)) >= 0,
            decreases
                    (if self@.phase.started() {
                        0int
                    } else {
                        1int
                    }),
                    chord_measure(self@, positions(pending@)),
                    pending.len(),
        {
            let ghost v = self@;
            let ghost before = positions(pending@);
            let (cx, cy) = pending.pop().unwrap();
            self.left_click(cx, cy);
            let ghost rest = positions(pending@);
            if !self.phase.is_ended() {
                let more = chord_cells(&mut self.tiles, cx, cy);
                push_reversed(&mut pending, &more);
            }
            proof {
                assert(before.last() == (cx as int, cy as int));
                assert(rest =~= before.drop_last());
                assert(positions(pending@) =~= pending_after(self@, before));
                lemma_chord_step(v0, x as int, y as int, v, before, self@);
                lemma_chord_goes_on(boards, pendings, self@);
                boards = boards.push(self@);
                pendings = pendings.push(positions(pending@));
            }
        }
        proof {
            lemma_chord_end(v0, x as int, y as int, self@, positions(pending@), boards, pendings);
        }
    }

    /// The lines in which the board is drawn: three for each row of
    /// cells, each cell three characters wide.
    pub fn to_widget(&self) -> (text: Vec<Vec<Glyph>>)
        requires
            self.wf(),
        ensures
            line_views(text@) == matrix_glyphs(self@.grid, self@.width(), self@.height()),
    {
        let ghost g = self@.grid;
        proof {
            lemma_wf(self@);
        }
        let max_y = self.tiles[0].len();
        let max_x = self.tiles.len();
        proof {
            assert forall|x: int, y: int| inside(g, x, y) implies (#[trigger] g[x][y]).bombs_near <= 8 by {
                assert(g[x][y].bombs_near == mines_around(g, x, y));
            }
        }

        let mut text: Vec<Vec<Glyph>> = Vec::new();
        let mut y: usize = 0;
        while y < max_y
            invariant
                y <= max_y <= 60,
                max_x == self.tiles.len(),
                text.len() == 3 * y,
                g == grid_of(self.tiles),
                rectangular(g, max_x as int, max_y as int),
                forall|i: int, j: int| inside(g, i, j) ==> (#[trigger] g[i][j]).bombs_near <= 8,
                forall|k: int|
                    0 <= k < 3 * y ==> glyph_views((#[trigger] text[k])@) == row_glyphs(
                        g,
                        k / 3,
                        k % 3,
                        max_x as int,
                    ),
            decreases max_y - y,
        {
            let top = draw_row(&self.tiles, y, 0);
            let middle = draw_row(&self.tiles, y, 1);
            let bottom = draw_row(&self.tiles, y, 2);
            let ghost held = text@;
            text.push(top);
            text.push(middle);
            text.push(bottom);
            assert forall|k: int| 0 <= k < 3 * (y + 1) implies glyph_views((#[trigger] text[k])@)
                == row_glyphs(g, k / 3, k % 3, max_x as int) by {
                if k < 3 * y {
                    assert(text[k] == held[k]);
                }
            }
            y += 1;
        }
        assert(line_views(text@) =~= matrix_glyphs(g, max_x as int, max_y as int));
        text
    }

    /// Whether every mine has the given state.
    pub fn check_all_mine_state(&self, state: TileState) -> (all: bool)
        ensures
            all == mines_all(self@.grid, state),
    {
        all_mines_in(&self.tiles, state)
    }

    /// A click that toggles the question mark of the cell `(x, y)`.
    /// Nothing happens once the game has ended. Else a click on a cell
    /// starts the game and toggles the mark of the cell.
    pub fn middle_click(&mut self, x: usize, y: usize)
        requires
            old(self).wf(),
        ensures
            middle_clicked(old(self)@, x as int, y as int, final(self)@),
    {
        if self.phase.is_ended() {
            return ;
        }
        let ghost v0 = self@;
        let hit = toggle_question(&mut self.tiles, x, y);
        if hit && !self.phase.is_started() {
            self.phase = Phase::InProgress { started_at: now() };
        }
        proof {
            let t = question_toggled(v0.grid[x as int][y as int]);
            lemma_changed_is_put(v0.grid, x as int, y as int, t, self@.grid);
            lemma_toggled(v0, x as int, y as int, t, self@);
        }
    }

    /// Puts out the light of the animation on every cell.
    pub fn clear_fire(&mut self)
        requires
            old(self).wf(),
        ensures
            doused(old(self)@, final(self)@),
    {
        let ghost v0 = self@;
        douse(&mut self.tiles);
        proof {
            let after = self@.grid;
            assert(same_layout(v0.grid, after)) by {
                assert forall|i: int, j: int| inside(v0.grid, i, j) implies (#[trigger] v0.grid[i][j]).is_mine
                    == after[i][j].is_mine && v0.grid[i][j].bombs_near == after[i][j].bombs_near by {}
            }
            lemma_keeps_states(v0, after);
        }
    }

    /// One tick of the animation of a lost game: the ring round the mine
    /// that went off, with a radius of as many quarters of a cell as the
    /// animation has made ticks, four to begin with. The mines on the ring
    /// are opened and its other cells lit; where the ring meets no cell,
    /// every mine is opened.
    pub fn do_game_over_animation(&mut self)
        requires
            old(self).wf(),
            old(self)@.phase is Lost,
        ensures
            animated(old(self)@, final(self)@),
    {
        proof {
            lemma_wf(self@);
            lemma_wf_at_end(self@);
        }
        let ghost v0 = self@;
        match self.phase {
            Phase::Lost { started_at, ended_at, epicenter, animation_progress } => {
                draw_ring(&mut self.tiles, epicenter, animation_progress);
                let next = if animation_progress < u32::MAX {
                    animation_progress + 1
                } else {
                    animation_progress
                };
                self.phase = Phase::Lost { started_at, ended_at, epicenter, animation_progress: next };
            },
            _ => {},
        }
        proof {
            let after = self@.grid;
            assert(same_layout(v0.grid, after)) by {
                assert forall|i: int, j: int| inside(v0.grid, i, j) implies (#[trigger] v0.grid[i][j]).is_mine
                    == after[i][j].is_mine && v0.grid[i][j].bombs_near == after[i][j].bombs_near by {}
            }
            assert(phase_fits(after, self@.phase)) by {
                let e = v0.phase->epicenter;
                assert(inside(v0.grid, e.0 as int, e.1 as int));
            }
            lemma_regions_ring(
                v0.grid,
                perimeter_of(
                    v0.phase->epicenter.0 as int,
                    v0.phase->epicenter.1 as int,
                    v0.phase->animation_progress as int,
                ),
                after,
            );
            lemma_still_wf(v0, after, self@.phase);
        }
    }

    /// Opens what the flood from `(x, y)` opens. From a cell with no mine
    /// beside it, the flood opens no mine.
    pub fn flood_fill(&mut self, x: usize, y: usize)
        requires
            old(self).wf(),
        ensures
            final(self).wf(),
            final(self)@.difficulty == old(self)@.difficulty,
            final(self)@.max_render_size == old(self)@.max_render_size,
            final(self)@.phase == old(self)@.phase,
            flood_of(old(self)@.grid, x as int, y as int, final(self)@.grid),
            inside(old(self)@.grid, x as int, y as int) && old(self)@.grid[x as int][y as int].bombs_near == 0
                ==> forall|i: int, j: int|
                inside(old(self)@.grid, i, j) && (#[trigger] old(self)@.grid[i][j]).is_mine ==> final(self)@.grid[i][j]
                    == old(self)@.grid[i][j],
    {
        let ghost v0 = self@;
        flood_fill(&mut self.tiles, x, y);
        proof {
            let after = self@.grid;
            lemma_wf(v0);
            lemma_flood_cascades(v0.grid, x as int, y as int, after);
            lemma_regions_opened(v0.grid, after);
            lemma_only_opened(v0.grid, after);
            lemma_still_wf(v0, after, v0.phase);
            if inside(v0.grid, x as int, y as int) && v0.grid[x as int][y as int].bombs_near == 0 {
                lemma_wf(v0);
                flood_spares_mines(v0.grid, x as int, y as int);
            }
        }
    }
}

} // verus!
