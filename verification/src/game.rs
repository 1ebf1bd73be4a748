//! The state of the application round a board: the ledger of best times,
//! the dialogue that selects a preset, and what keys and the mouse do.

use vstd::prelude::*;
use crate::board::Board;
use crate::chord::chorded;
use crate::clock::{now, time_between, whole_seconds};
use crate::difficulty::Difficulty;
use crate::grid::mines_all;
use crate::layout::{centre, Area};
use crate::ledger::{in_order, ledger_of, merge, query};
use crate::mapper::{cell_at, translate};
use crate::phase::Phase;
use crate::render::{
    glyph_views, line_views, matrix_glyphs, score_glyphs, title, title_glyphs, Glyph, GlyphView,
};
use crate::rules::{animated, doused, left_clicked, middle_clicked, right_clicked, BoardView};
use crate::score::Score;
use crate::sizes::{is_playable, playable};
use crate::tile::TileState;

verus! {

/// A key of the keyboard, as far as the application tells keys apart.
#[derive(Clone, Copy, PartialEq, Eq, Debug, Structural)]
pub enum Key {
    Esc,
    Enter,
    Up,
    Down,
    Char(char),
    Other,
}

/// A key pressed. `control` says that the control key, and no other
/// modifier, was held.
#[derive(Clone, Copy, PartialEq, Eq, Debug, Structural)]
pub struct KeyPress {
    pub key: Key,
    pub control: bool,
}

/// A button of the mouse.
#[derive(Clone, Copy, PartialEq, Eq, Debug, Structural)]
pub enum Button {
    Left,
    Right,
    Middle,
}

/// What the mouse did: a button was released, or something else.
#[derive(Clone, Copy, PartialEq, Eq, Debug, Structural)]
pub enum MouseKind {
    Up(Button),
    Other,
}

/// An event of the mouse at a column and a row of the screen.
#[derive(Clone, Copy, PartialEq, Eq, Debug, Structural)]
pub struct Mouse {
    pub kind: MouseKind,
    pub column: u16,
    pub row: u16,
}

/// The board as the screen is to show it: the title of its frame, and the
/// lines of its cells.
pub struct BoardWidget {
    pub title: Vec<Glyph>,
    pub text: Vec<Vec<Glyph>>,
}

/// The list in which a preset is selected: where it is shown, and which
/// of its three entries is the current one.
pub struct Dialogue {
    pub area: Area,
    pub selected: usize,
}

/// What the terminal is to draw: the board in the middle, the
/// instructions to its left, the best times to its right, and over them
/// the list of the presets while one is being selected.
pub struct Screen {
    pub instructions_area: Area,
    pub board_area: Area,
    pub board: BoardWidget,
    pub leaderboard_area: Area,
    pub leaderboard: Vec<Vec<Glyph>>,
    pub dialogue: Option<Dialogue>,
}

/// The width and the height of the list of the presets.
pub const DIALOGUE_SIZE: (u16, u16) = (30, 8);

/// The application.
pub struct App {
    pub should_quit: bool,
    board: Board,
    pub board_rect: Area,
    last_click_pos: (usize, usize),
    leaderboard_updated: bool,
    leaderboard: Vec<Score>,
    pub change_difficulty: bool,
}

/// What the application is.
pub ghost struct AppView {
    pub should_quit: bool,
    pub board: BoardView,
    pub board_rect: Area,
    pub last_click_pos: (usize, usize),
    pub leaderboard_updated: bool,
    pub leaderboard: Seq<Score>,
    pub change_difficulty: bool,
}

impl View for App {
    type V = AppView;

    closed spec fn view(&self) -> AppView {
        AppView {
            should_quit: self.should_quit,
            board: self.board@,
            board_rect: self.board_rect,
            last_click_pos: self.last_click_pos,
            leaderboard_updated: self.leaderboard_updated,
            leaderboard: self.leaderboard@,
            change_difficulty: self.change_difficulty,
        }
    }
}

impl AppView {
    /// The board is one that a game can be in, and the best times stand in
    /// the order of a ledger.
    pub open spec fn wf(self) -> bool {
        self.board.wf() && in_order(self.leaderboard)
    }

    /// The cell of the board that the screen shows at `(x, y)`.
    pub open spec fn cell_at(self, x: int, y: int) -> Option<(usize, usize)> {
        cell_at(x, y, self.board_rect.x as int, self.board_rect.y as int, self.board.width(), self.board.height())
    }

    /// The application with a new game of the preset on its board.
    pub open spec fn restarted(self, difficulty: Difficulty, after: AppView) -> bool {
        &&& after.wf()
        &&& after.board.new_game()
        &&& after.board.difficulty == difficulty
        &&& after.board.max_render_size == self.board.max_render_size
        &&& after == AppView { board: after.board, leaderboard_updated: false, ..self }
    }

    /// The preset that a key selects in the dialogue: the one before the
    /// current one for the key up, the one after it for the key down.
    pub open spec fn selected_by(self, key: Key) -> Option<Difficulty> {
        if !self.change_difficulty {
            None
        } else if key == Key::Up {
            Some(Difficulty::at_rank(self.board.difficulty.rank() + 2))
        } else if key == Key::Down {
            Some(Difficulty::at_rank(self.board.difficulty.rank() + 1))
        } else {
            None
        }
    }

    /// The preset of the game that a key starts, if it starts one: the
    /// current one for R, the selected one in the dialogue.
    pub open spec fn started_by(self, key: Key) -> Option<Difficulty> {
        if key == Key::Char('r') || key == Key::Char('R') {
            Some(self.board.difficulty)
        } else {
            self.selected_by(key)
        }
    }
}

/// `after` is the application `before` after the key: escape and Q close
/// the dialogue, or quit where it is closed; C with the control key quits,
/// C alone opens or closes the dialogue; enter closes it; R and, in the
/// dialogue, the keys up and down start a new game; any other key does
/// nothing.
pub open spec fn key_handled(before: AppView, press: KeyPress, after: AppView) -> bool {
    match press.key {
        Key::Esc | Key::Char('q') | Key::Char('Q') => if before.change_difficulty {
            after == AppView { change_difficulty: false, ..before }
        } else {
            after == AppView { should_quit: true, ..before }
        },
        Key::Char('c') | Key::Char('C') => if press.control {
            after == AppView { should_quit: true, ..before }
        } else {
            after == AppView { change_difficulty: !before.change_difficulty, ..before }
        },
        Key::Enter => after == AppView { change_difficulty: false, ..before },
        key => match before.started_by(key) {
            Some(difficulty) => before.restarted(difficulty, after),
            None => after == before,
        },
    }
}

/// `after` is the application `before` after a click of the left button
/// at `(x, y)` of the screen: nothing happens in the dialogue and off the
/// cells; a click on the cell of the click before is a chord, any other
/// click opens the cell and is remembered.
pub open spec fn left_click_handled(before: AppView, x: int, y: int, after: AppView) -> bool {
    if before.change_difficulty {
        after == before
    } else {
        match before.cell_at(x, y) {
            None => after == before,
            Some(cell) => if before.last_click_pos == cell {
                &&& chorded(before.board, cell.0 as int, cell.1 as int, after.board)
                &&& after == AppView { board: after.board, ..before }
            } else {
                &&& left_clicked(before.board, cell.0 as int, cell.1 as int, after.board)
                &&& after == AppView { board: after.board, last_click_pos: cell, ..before }
            },
        }
    }
}

/// `after` is the application `before` after a click of the right button
/// at `(x, y)` of the screen: nothing happens in the dialogue and off the
/// cells; else the click toggles the flag of the cell.
pub open spec fn right_click_handled(before: AppView, x: int, y: int, after: AppView) -> bool {
    if before.change_difficulty {
        after == before
    } else {
        match before.cell_at(x, y) {
            None => after == before,
            Some(cell) => {
                &&& right_clicked(before.board, cell.0 as int, cell.1 as int, after.board)
                &&& after == AppView { board: after.board, ..before }
            },
        }
    }
}

/// `after` is the application `before` after a click of the middle button
/// at `(x, y)` of the screen: nothing happens in the dialogue and off the
/// cells; else the click toggles the question mark of the cell.
pub open spec fn middle_click_handled(before: AppView, x: int, y: int, after: AppView) -> bool {
    if before.change_difficulty {
        after == before
    } else {
        match before.cell_at(x, y) {
            None => after == before,
            Some(cell) => {
                &&& middle_clicked(before.board, cell.0 as int, cell.1 as int, after.board)
                &&& after == AppView { board: after.board, ..before }
            },
        }
    }
}

/// `after` is the application `before` after the event of the mouse: the
/// click of the button that was released, at the place of the event; any
/// other event does nothing.
pub open spec fn mouse_handled(before: AppView, mouse: Mouse, after: AppView) -> bool {
    match mouse.kind {
        MouseKind::Up(Button::Left) => left_click_handled(before, mouse.column as int, mouse.row as int, after),
        MouseKind::Up(Button::Right) => right_click_handled(
            before,
            mouse.column as int,
            mouse.row as int,
            after,
        ),
        MouseKind::Up(Button::Middle) => middle_click_handled(
            before,
            mouse.column as int,
            mouse.row as int,
            after,
        ),
        MouseKind::Other => after == before,
    }
}

/// The game on the board has just been won: it is won, and the win is
/// not in the ledger yet.
pub open spec fn just_won(before: AppView) -> bool {
    before.board.phase is Won && !before.leaderboard_updated
}

/// The animation of a lost game has more to show: not every mine is open.
pub open spec fn animation_runs(board: BoardView) -> bool {
    board.phase is Lost && !mines_all(board.grid, TileState::Visible)
}

/// `after` is the application `before` after a tick of its clock, where a
/// game just won took `secs` seconds, and `save` says whether the ledger
/// is to be written. Once a game has ended, its end is taken note of: a
/// win goes into the ledger, with its preset and its seconds, and the
/// ledger is to be written. Then the animation of a lost game makes a
/// tick while it has more to show; else the light of the animation is put
/// out.
pub open spec fn ticked(before: AppView, secs: u64, after: AppView, save: bool) -> bool {
    &&& after.wf()
    &&& save == just_won(before)
    &&& after.leaderboard_updated == (before.leaderboard_updated || before.board.phase.ended())
    &&& if just_won(before) {
        ledger_of(after.leaderboard, before.leaderboard.push(Score { difficulty: before.board.difficulty, secs }))
    } else {
        after.leaderboard == before.leaderboard
    }
    &&& if animation_runs(before.board) {
        animated(before.board, after.board)
    } else {
        doused(before.board, after.board)
    }
    &&& after == AppView {
        board: after.board,
        leaderboard: after.leaderboard,
        leaderboard_updated: after.leaderboard_updated,
        ..before
    }
}

/// The lines of the list of best times: those of the preset on the
/// board, in the order of the ledger.
pub open spec fn leaderboard_glyphs(app: AppView) -> Seq<Seq<GlyphView>> {
    list_glyphs(app.leaderboard, app.board.difficulty)
}

/// The lines of the best times of a preset, in the order of the ledger.
pub open spec fn list_glyphs(ledger: Seq<Score>, difficulty: Difficulty) -> Seq<Seq<GlyphView>> {
    ledger.filter(|s: Score| s.difficulty == difficulty).map_values(|s: Score| score_glyphs(s))
}

/// `widget` is the board of the application as the screen is to show it
/// when the game has taken `secs` seconds.
pub open spec fn board_drawn(app: AppView, secs: u64, widget: BoardWidget) -> bool {
    &&& glyph_views(widget.title@) == title_glyphs(app.board.difficulty, secs)
    &&& line_views(widget.text@) == matrix_glyphs(app.board.grid, app.board.width(), app.board.height())
}

impl App {
    /// The application is one that the functions of this module keep.
    pub open spec fn wf(&self) -> bool {
        self@.wf()
    }

    /// The application with a new board of the preset and the ledger of
    /// the given best times.
    pub fn new(difficulty: Difficulty, max_render_size: (u16, u16), leaderboard: Vec<Score>) -> (app: App)
        requires
            playable(difficulty, max_render_size),
        ensures
            app.wf(),
            app@.board.new_game(),
            app@.board.difficulty == difficulty,
            app@.board.max_render_size == max_render_size,
            ledger_of(app@.leaderboard, leaderboard@),
            !app@.should_quit,
            !app@.change_difficulty,
            !app@.leaderboard_updated,
            app@.last_click_pos == (0usize, 0usize),
            app@.board_rect == (Area { x: 0, y: 0, width: 0, height: 0 }),
    {
        let none: Vec<Score> = Vec::new();
        let ledger = merge(&leaderboard, &none);
        assert(leaderboard@ + none@ =~= leaderboard@);
        App {
            should_quit: false,
            board: Board::new(difficulty, max_render_size),
            board_rect: Area { x: 0, y: 0, width: 0, height: 0 },
            last_click_pos: (0, 0),
            leaderboard_updated: false,
            leaderboard: ledger,
            change_difficulty: false,
        }
    }

    /// The board.
    pub fn board(&self) -> (board: &Board)
        ensures
            board@ == self@.board,
    {
        &self.board
    }

    /// The best times, in the order of a ledger.
    pub fn leaderboard(&self) -> (scores: &Vec<Score>)
        ensures
            scores@ == self@.leaderboard,
    {
        &self.leaderboard
    }

    pub fn difficulty(&self) -> (difficulty: Difficulty)
        ensures
            difficulty == self@.board.difficulty,
    {
        self.board.difficulty()
    }

    fn translate_click_coordinates(&self, x: usize, y: usize) -> (cell: Option<(usize, usize)>)
        requires
            self.wf(),
        ensures
            cell == self@.cell_at(x as int, y as int),
    {
        translate(x, y, (self.board_rect.x, self.board_rect.y), self.board.get_board_size())
    }

    pub fn left_click(&mut self, x: usize, y: usize)
        requires
            old(self).wf(),
        ensures
            final(self).wf(),
            left_click_handled(old(self)@, x as int, y as int, final(self)@),
    {
        if self.change_difficulty {
            return ;
        }
        if let Some((x, y)) = self.translate_click_coordinates(x, y) {
            if self.last_click_pos.0 == x && self.last_click_pos.1 == y {
                self.board.do_control_click(x, y);
            } else {
                self.board.left_click(x, y);
                self.last_click_pos = (x, y);
            }
        }
    }

    pub fn right_click(&mut self, x: usize, y: usize)
        requires
            old(self).wf(),
        ensures
            final(self).wf(),
            right_click_handled(old(self)@, x as int, y as int, final(self)@),
    {
        if self.change_difficulty {
            return ;
        }
        if let Some((x, y)) = self.translate_click_coordinates(x, y) {
            self.board.right_click(x, y);
        }
    }

    pub fn middle_click(&mut self, x: usize, y: usize)
        requires
            old(self).wf(),
        ensures
            final(self).wf(),
            middle_click_handled(old(self)@, x as int, y as int, final(self)@),
    {
        if self.change_difficulty {
            return ;
        }
        if let Some((x, y)) = self.translate_click_coordinates(x, y) {
            self.board.middle_click(x, y);
        }
    }

    /// Starts a new game of the preset. The area that the terminal offers
    /// has to be large enough for it.
    pub fn set_difficulty(&mut self, difficulty: Difficulty)
        requires
            playable(difficulty, old(self)@.board.max_render_size),
            old(self).wf(),
        ensures
            old(self)@.restarted(difficulty, final(self)@),
    {
        self.leaderboard_updated = false;
        self.board = Board::new(difficulty, self.board.max_render_size());
    }

    /// Starts a new game of the current preset. The area that the terminal
    /// offers has to be large enough for it.
    pub fn new_game(&mut self)
        requires
            playable(old(self)@.board.difficulty, old(self)@.board.max_render_size),
            old(self).wf(),
        ensures
            old(self)@.restarted(old(self)@.board.difficulty, final(self)@),
    {
        self.leaderboard_updated = false;
        self.board = Board::new(self.board.difficulty(), self.board.max_render_size());
    }

    /// Takes note of the area that the terminal offers, which has to be
    /// large enough for a new board where the game has not started.
    pub fn update_size(&mut self, size: (u16, u16))
        requires
            old(self).wf(),
            !old(self)@.board.phase.started() ==> playable(old(self)@.board.difficulty, size),
        ensures
            final(self).wf(),
            final(self)@ == (AppView { board: final(self)@.board, ..old(self)@ }),
            final(self)@.board.difficulty == old(self)@.board.difficulty,
            final(self)@.board.phase == old(self)@.board.phase,
            final(self)@.board.max_render_size == size,
            old(self)@.board.phase.started() ==> final(self)@.board.grid == old(self)@.board.grid,
            !old(self)@.board.phase.started() ==> final(self)@.board.new_game(),
    {
        self.board.set_max_board_size(size);
    }

    /// A tick of the application's clock. Says whether the ledger is to be
    /// written.
    pub fn tick(&mut self) -> (save: bool)
        requires
            old(self).wf(),
        ensures
            exists|secs: u64| ticked(old(self)@, secs, final(self)@, save),
    {
        let secs = match (self.board.first_move_time(), self.board.last_move_time()) {
            (Some(start), Some(end)) => whole_seconds(time_between(start, end)),
            _ => 0,
        };
        let save = self.tick_after(secs);
        assert(ticked(old(self)@, secs, self@, save));
        save
    }

    /// A tick of the application's clock, where a game just won took
    /// `secs` seconds. Says whether the ledger is to be written.
    pub fn tick_after(&mut self, secs: u64) -> (save: bool)
        requires
            old(self).wf(),
        ensures
            ticked(old(self)@, secs, final(self)@, save),
    {
        let mut save = false;
        if self.board.phase().is_ended() && !self.leaderboard_updated {
            if let Phase::Won { .. } = self.board.phase() {
                let mut won: Vec<Score> = Vec::new();
                won.push(Score::new(self.board.difficulty(), secs));
                let ghost held = self.leaderboard@;
                self.leaderboard = merge(&self.leaderboard, &won);
                assert(held + won@ =~= held.push(won@[0]));
                save = true;
            }
            self.leaderboard_updated = true;
        }
        let lost = match self.board.phase() {
            Phase::Lost { .. } => true,
            _ => false,
        };
        if lost && !self.board.check_all_mine_state(TileState::Visible) {
            self.board.do_game_over_animation();
        } else {
            self.board.clear_fire();
        }
        save
    }

    /// Whether the area that the terminal offers is large enough for what
    /// the key does: for the new game that it starts, if it starts one.
    pub fn can_handle(&self, press: KeyPress) -> (yes: bool)
        ensures
            yes == (self@.started_by(press.key) matches Some(difficulty) ==> playable(
                difficulty,
                self@.board.max_render_size,
            )),
    {
        let size = self.board.max_render_size();
        match press.key {
            Key::Char('r') | Key::Char('R') => is_playable(self.board.difficulty(), size),
            Key::Up => !self.change_difficulty || is_playable(self.board.difficulty().previous(), size),
            Key::Down => !self.change_difficulty || is_playable(self.board.difficulty().next(), size),
            _ => true,
        }
    }

    /// The board as the screen is to show it. A game that has not started
    /// has taken no seconds.
    pub fn get_board_widget(&self) -> (widget: BoardWidget)
        requires
            self.wf(),
        ensures
            exists|secs: u64|
                #[trigger] board_drawn(self@, secs, widget) && (!self@.board.phase.started() ==> secs == 0),
    {
        let secs = match self.board.first_move_time() {
            None => 0,
            Some(start) => match self.board.last_move_time() {
                None => whole_seconds(time_between(start, now())),
                Some(end) => whole_seconds(time_between(start, end)),
            },
        };
        let widget = self.get_board_widget_after(secs);
        assert(board_drawn(self@, secs, widget));
        widget
    }

    /// The board as the screen is to show it when the game has taken
    /// `secs` seconds.
    pub fn get_board_widget_after(&self, secs: u64) -> (widget: BoardWidget)
        requires
            self.wf(),
        ensures
            board_drawn(self@, secs, widget),
    {
        BoardWidget { title: title(self.difficulty(), secs), text: self.board.to_widget() }
    }

    /// The lines of the list of best times: those of the preset on the
    /// board.
    pub fn get_leaderboard_widget(&self) -> (items: Vec<Vec<Glyph>>)
        ensures
            line_views(items@) == leaderboard_glyphs(self@),
    {
        let scores = query(&self.leaderboard, self.difficulty());
        let mut items: Vec<Vec<Glyph>> = Vec::new();
        let mut at: usize = 0;
        while at < scores.len()
            invariant
                at <= scores.len(),
                items.len() == at,
                forall|k: int| 0 <= k < at ==> glyph_views((#[trigger] items[k])@) == score_glyphs(scores[k]),
            decreases scores.len() - at,
        {
            let item = scores[at].as_list_item();
            let ghost held = items@;
            items.push(item);
            assert forall|k: int| 0 <= k < at + 1 implies glyph_views((#[trigger] items[k])@) == score_glyphs(
                scores[k],
            ) by {
                if k < at {
                    assert(items[k] == held[k]);
                }
            }
            at += 1;
        }
        assert(line_views(items@) =~= leaderboard_glyphs(self@));
        items
    }

    /// The size of the board on the screen, its frame included.
    pub fn get_board_size_with_border(&self) -> (size: (u16, u16))
        requires
            self.wf(),
        ensures
            size.0 == self@.board.width() * 3 + 2,
            size.1 == self@.board.height() * 3 + 2,
    {
        let (x, y) = self.board.get_board_size();
        (x as u16 * 3 + 2, y as u16 * 3 + 2)
    }
}

/// `screen` is what the terminal is to draw of the application `before`,
/// and `after` is the application once that is settled: the board is
/// drawn where the division of the screen puts it, which the application
/// takes note of for the clicks to come; the best times are those of the
/// preset on the board; and the list of the presets is there while one is
/// being selected, with the preset on the board as the current one.
pub open spec fn rendered(before: AppView, screen: Screen, after: AppView) -> bool {
    &&& after == AppView { board_rect: screen.board_area, ..before }
    &&& exists|secs: u64|
        #[trigger] board_drawn(before, secs, screen.board) && (!before.board.phase.started() ==> secs == 0)
    &&& line_views(screen.leaderboard@) == leaderboard_glyphs(before)
    &&& screen.dialogue is Some <==> before.change_difficulty
    &&& screen.dialogue matches Some(dialogue) ==> dialogue.selected == before.board.difficulty.rank()
}

/// What the terminal is to draw on a screen of the given area. The board
/// is put in the middle of the screen, and the application takes note of
/// where.
pub fn render(app: &mut App, area: Area) -> (screen: Screen)
    requires
        old(app).wf(),
    ensures
        final(app).wf(),
        rendered(old(app)@, screen, final(app)@),
{
    let (min_x, min_y) = app.get_board_size_with_border();
    let horizontal = centre(area, min_x, min_y);
    app.board_rect = horizontal[1];

    let board = app.get_board_widget();
    let leaderboard = app.get_leaderboard_widget();

    let dialogue = if app.change_difficulty {
        let horizontal = centre(area, DIALOGUE_SIZE.0, DIALOGUE_SIZE.1);
        Some(Dialogue { area: horizontal[1], selected: app.difficulty().index() })
    } else {
        None
    };
    let ghost secs = choose|secs: u64|
        #[trigger] board_drawn(app@, secs, board) && (!app@.board.phase.started() ==> secs == 0);
    assert(board_drawn(old(app)@, secs, board));
    let screen = Screen {
        instructions_area: horizontal[0],
        board_area: horizontal[1],
        board,
        leaderboard_area: horizontal[2],
        leaderboard,
        dialogue,
    };
    assert(board_drawn(old(app)@, secs, screen.board));
    screen
}

/// What a key does. The area that the terminal offers has to be large
/// enough for the new game that the key starts, if it starts one.
pub fn handle_keys(app: &mut App, key_event: KeyPress)
    requires
        old(app).wf(),
        old(app)@.started_by(key_event.key) matches Some(difficulty) ==> playable(
            difficulty,
            old(app)@.board.max_render_size,
        ),
    ensures
        final(app).wf(),
        key_handled(old(app)@, key_event, final(app)@),
{
    match key_event.key {
        Key::Esc | Key::Char('q') | Key::Char('Q') => {
            if app.change_difficulty {
                app.change_difficulty = false;
            } else {
                app.should_quit = true;
            }
        },
        Key::Char('c') | Key::Char('C') => {
            if key_event.control {
                app.should_quit = true;
            } else {
                app.change_difficulty = !app.change_difficulty;
            }
        },
        Key::Enter => {
            app.change_difficulty = false;
        },
        Key::Char('r') | Key::Char('R') => {
            app.new_game();
        },
        Key::Up => {
            if app.change_difficulty {
                let difficulty = app.difficulty().previous();
                app.set_difficulty(difficulty);
            }
        },
        Key::Down => {
            if app.change_difficulty {
                let difficulty = app.difficulty().next();
                app.set_difficulty(difficulty);
            }
        },
        _ => {},
    }
}

/// What an event of the mouse does.
pub fn handle_mouse(app: &mut App, mouse_event: Mouse)
    requires
        old(app).wf(),
    ensures
        final(app).wf(),
        mouse_handled(old(app)@, mouse_event, final(app)@),
{
    let x = mouse_event.column as usize;
    let y = mouse_event.row as usize;
    match mouse_event.kind {
        MouseKind::Up(Button::Left) => app.left_click(x, y),
        MouseKind::Up(Button::Right) => app.right_click(x, y),
        MouseKind::Up(Button::Middle) => app.middle_click(x, y),
        MouseKind::Other => {},
    }
}

} // verus!
