use termsweeper::game::{Button, Key, KeyPress, Mouse, MouseKind};
use termsweeper::layout::Area;
use termsweeper::layout::centre;
use termsweeper::{handle_keys, handle_mouse, render, App, Board, Difficulty, Phase, Score, Tile, TileState};

const AREA: (u16, u16) = (200, 100);

fn press(key: Key) -> KeyPress {
    KeyPress { key, control: false }
}

fn cells(board: &Board) -> Vec<((usize, usize), Tile)> {
    let (w, h) = board.get_board_size();
    let mut all = Vec::new();
    for x in 0..w {
        for y in 0..h {
            all.push(((x, y), board.tile(x, y).unwrap()));
        }
    }
    all
}

// The middle of the cell on a screen where the frame has its corner at (20, 10).
fn at(cell: (usize, usize)) -> (usize, usize) {
    (20 + 1 + 3 * cell.0 + 1, 10 + 1 + 3 * cell.1 + 1)
}

fn app_on_screen(d: Difficulty) -> App {
    let mut app = App::new(d, AREA, Vec::new());
    app.board_rect = Area { x: 20, y: 10, width: 32, height: 26 };
    app
}

fn win(app: &mut App) {
    let mines: Vec<_> = cells(app.board()).into_iter().filter(|(_, t)| t.is_mine).map(|(c, _)| c).collect();
    for c in mines {
        let (x, y) = at(c);
        app.right_click(x, y);
    }
    assert!(matches!(app.board().phase(), Phase::Won { .. }));
}

#[test]
fn new_app() {
    let app = App::new(
        Difficulty::Medium,
        AREA,
        vec![Score::new(Difficulty::Easy, 30), Score::new(Difficulty::Easy, 3), Score::new(Difficulty::Easy, 30)],
    );
    assert!(!app.should_quit);
    assert!(!app.change_difficulty);
    assert_eq!(app.board_rect, Area { x: 0, y: 0, width: 0, height: 0 });
    assert_eq!(app.difficulty(), Difficulty::Medium);
    assert_eq!(app.board().get_board_size(), (18, 14));
    assert_eq!(app.leaderboard(), &vec![Score::new(Difficulty::Easy, 3), Score::new(Difficulty::Easy, 30)]);
    assert_eq!(app.get_board_size_with_border(), (18 * 3 + 2, 14 * 3 + 2));
}

#[test]
fn left_click_opens_the_cell_under_the_pointer() {
    let mut app = app_on_screen(Difficulty::Easy);
    let (x, y) = at((4, 3));
    app.left_click(x, y);
    assert_eq!(app.board().tile(4, 3).unwrap().state, TileState::Visible);
    assert!(matches!(app.board().phase(), Phase::InProgress { .. }));
}

#[test]
fn clicks_on_the_frame_or_outside_do_nothing() {
    let mut app = app_on_screen(Difficulty::Easy);
    for (x, y) in [(20, 10), (20, 15), (25, 10), (0, 0), (51, 15), (25, 35), (1000, 1000)] {
        app.left_click(x, y);
        app.right_click(x, y);
        app.middle_click(x, y);
    }
    assert!(matches!(app.board().phase(), Phase::NotStarted));
    assert!(cells(app.board()).iter().all(|(_, t)| t.state == TileState::Hidden));
}

#[test]
fn clicks_in_the_dialogue_do_nothing() {
    let mut app = app_on_screen(Difficulty::Easy);
    app.change_difficulty = true;
    let (x, y) = at((4, 3));
    app.left_click(x, y);
    app.right_click(x, y);
    app.middle_click(x, y);
    assert!(matches!(app.board().phase(), Phase::NotStarted));
}

#[test]
fn right_and_middle_click_mark_the_cell_under_the_pointer() {
    let mut app = app_on_screen(Difficulty::Easy);
    let (x, y) = at((9, 7));
    app.right_click(x, y);
    assert_eq!(app.board().tile(9, 7).unwrap().state, TileState::Marked);
    app.right_click(x, y);
    app.middle_click(x, y);
    assert_eq!(app.board().tile(9, 7).unwrap().state, TileState::Question);
}

#[test]
fn second_click_on_the_same_cell_is_a_chord() {
    let mut done = 0;
    for _ in 0..200 {
        let mut app = app_on_screen(Difficulty::Easy);
        let (x, y) = at((5, 4));
        app.left_click(x, y);
        let board = app.board();
        let target = cells(board).into_iter().find(|&((i, j), t)| {
            (i, j) != (5, 4)
                && t.state == TileState::Visible
                && t.bombs_near > 0
                && cells(board).iter().any(|&((a, b), n)| {
                    (a as i64 - i as i64).abs() <= 1
                        && (b as i64 - j as i64).abs() <= 1
                        && n.state == TileState::Hidden
                        && !n.is_mine
                })
        });
        let Some((cell, _)) = target else { continue };
        let near = |c: (usize, usize)| {
            (c.0 as i64 - cell.0 as i64).abs() <= 1 && (c.1 as i64 - cell.1 as i64).abs() <= 1 && c != cell
        };
        let mines: Vec<_> = cells(app.board()).into_iter().filter(|(c, t)| near(*c) && t.is_mine).collect();
        for (c, _) in mines {
            let (x, y) = at(c);
            app.right_click(x, y);
        }
        if matches!(app.board().phase(), Phase::Won { .. }) {
            continue;
        }
        let (x, y) = at(cell);
        // the first click on the open cell opens nothing, the second is a chord
        let before = cells(app.board());
        app.left_click(x, y);
        assert_eq!(cells(app.board()), before);
        app.left_click(x, y);
        for (c, t) in cells(app.board()) {
            if near(c) {
                assert!(t.state == TileState::Visible || t.state == TileState::Marked);
            }
        }
        assert!(matches!(app.board().phase(), Phase::InProgress { .. }));
        done += 1;
    }
    assert!(done > 50);
}

#[test]
fn first_click_on_the_corner_cell_is_a_chord() {
    // no click has been made, and the click before is taken to be on (0, 0)
    for _ in 0..50 {
        let mut app = app_on_screen(Difficulty::Easy);
        let corner = app.board().tile(0, 0).unwrap();
        let (x, y) = at((0, 0));
        app.left_click(x, y);
        if corner.bombs_near == 0 {
            assert!(matches!(app.board().phase(), Phase::InProgress { .. }));
        } else {
            assert!(matches!(app.board().phase(), Phase::NotStarted));
            assert!(cells(app.board()).iter().all(|(_, t)| t.state == TileState::Hidden));
        }
    }
}

#[test]
fn keys_quit_and_open_the_dialogue() {
    let mut app = app_on_screen(Difficulty::Easy);
    handle_keys(&mut app, press(Key::Char('c')));
    assert!(app.change_difficulty);
    handle_keys(&mut app, press(Key::Esc));
    assert!(!app.change_difficulty);
    assert!(!app.should_quit);
    handle_keys(&mut app, press(Key::Char('C')));
    assert!(app.change_difficulty);
    handle_keys(&mut app, press(Key::Char('q')));
    assert!(!app.change_difficulty);
    handle_keys(&mut app, press(Key::Char('c')));
    handle_keys(&mut app, press(Key::Enter));
    assert!(!app.change_difficulty);
    handle_keys(&mut app, press(Key::Char('c')));
    handle_keys(&mut app, press(Key::Char('c')));
    assert!(!app.change_difficulty);
    assert!(!app.should_quit);
    handle_keys(&mut app, press(Key::Other));
    handle_keys(&mut app, press(Key::Char('x')));
    handle_keys(&mut app, press(Key::Enter));
    assert!(!app.should_quit);
    handle_keys(&mut app, press(Key::Esc));
    assert!(app.should_quit);
    for key in [Key::Char('q'), Key::Char('Q')] {
        let mut app = app_on_screen(Difficulty::Easy);
        handle_keys(&mut app, press(key));
        assert!(app.should_quit);
    }
    let mut app = app_on_screen(Difficulty::Easy);
    handle_keys(&mut app, KeyPress { key: Key::Char('c'), control: true });
    assert!(app.should_quit);
    assert!(!app.change_difficulty);
}

#[test]
fn keys_cycle_the_difficulty_in_the_dialogue() {
    let mut app = app_on_screen(Difficulty::Easy);
    // outside the dialogue the keys up and down do nothing
    handle_keys(&mut app, press(Key::Down));
    assert_eq!(app.difficulty(), Difficulty::Easy);
    handle_keys(&mut app, press(Key::Char('c')));
    handle_keys(&mut app, press(Key::Down));
    assert_eq!(app.difficulty(), Difficulty::Medium);
    assert_eq!(app.board().get_board_size(), (18, 14));
    handle_keys(&mut app, press(Key::Down));
    assert_eq!(app.difficulty(), Difficulty::Hard);
    handle_keys(&mut app, press(Key::Down));
    assert_eq!(app.difficulty(), Difficulty::Easy);
    handle_keys(&mut app, press(Key::Up));
    assert_eq!(app.difficulty(), Difficulty::Hard);
    assert_eq!(app.board().get_board_size(), (20, 24));
    handle_keys(&mut app, press(Key::Up));
    assert_eq!(app.difficulty(), Difficulty::Medium);
    handle_keys(&mut app, press(Key::Up));
    assert_eq!(app.difficulty(), Difficulty::Easy);
    assert!(app.change_difficulty);
}

#[test]
fn restart_key_starts_a_new_game() {
    let mut app = app_on_screen(Difficulty::Easy);
    let (x, y) = at((3, 3));
    app.left_click(x, y);
    assert!(matches!(app.board().phase(), Phase::InProgress { .. }));
    handle_keys(&mut app, press(Key::Char('r')));
    assert!(matches!(app.board().phase(), Phase::NotStarted));
    assert!(cells(app.board()).iter().all(|(_, t)| t.state == TileState::Hidden));
    app.left_click(x, y);
    handle_keys(&mut app, press(Key::Char('R')));
    assert!(matches!(app.board().phase(), Phase::NotStarted));
    assert_eq!(app.difficulty(), Difficulty::Easy);
}

#[test]
fn can_handle_tells_when_the_area_is_too_small() {
    let mut app = App::new(Difficulty::Easy, (42, 26), Vec::new());
    assert!(app.can_handle(press(Key::Char('r'))));
    assert!(app.can_handle(press(Key::Down)));
    assert!(app.can_handle(press(Key::Esc)));
    app.change_difficulty = true;
    assert!(!app.can_handle(press(Key::Down)));
    assert!(!app.can_handle(press(Key::Up)));
    assert!(app.can_handle(press(Key::Char('R'))));
    assert!(app.can_handle(press(Key::Enter)));
    let mut app = App::new(Difficulty::Easy, AREA, Vec::new());
    app.change_difficulty = true;
    assert!(app.can_handle(press(Key::Down)));
    assert!(app.can_handle(press(Key::Up)));
}

#[test]
fn mouse_events_dispatch_on_the_button() {
    let mut app = app_on_screen(Difficulty::Easy);
    let (x, y) = at((2, 2));
    let event = |kind| Mouse { kind, column: x as u16, row: y as u16 };
    handle_mouse(&mut app, event(MouseKind::Other));
    assert!(matches!(app.board().phase(), Phase::NotStarted));
    handle_mouse(&mut app, event(MouseKind::Up(Button::Right)));
    assert_eq!(app.board().tile(2, 2).unwrap().state, TileState::Marked);
    handle_mouse(&mut app, event(MouseKind::Up(Button::Right)));
    handle_mouse(&mut app, event(MouseKind::Up(Button::Middle)));
    assert_eq!(app.board().tile(2, 2).unwrap().state, TileState::Question);
    handle_mouse(&mut app, event(MouseKind::Up(Button::Middle)));
    handle_mouse(&mut app, event(MouseKind::Up(Button::Left)));
    assert_eq!(app.board().tile(2, 2).unwrap().state, TileState::Visible);
}

#[test]
fn tick_records_a_win_once() {
    let mut app = app_on_screen(Difficulty::Easy);
    assert!(!app.tick_after(5));
    assert!(app.leaderboard().is_empty());
    win(&mut app);
    assert!(app.tick_after(42));
    assert_eq!(app.leaderboard(), &vec![Score::new(Difficulty::Easy, 42)]);
    assert!(!app.tick_after(43));
    assert!(!app.tick());
    assert_eq!(app.leaderboard(), &vec![Score::new(Difficulty::Easy, 42)]);
    // a new game and another win
    app.new_game();
    win(&mut app);
    assert!(app.tick_after(7));
    assert_eq!(app.leaderboard(), &vec![Score::new(Difficulty::Easy, 7), Score::new(Difficulty::Easy, 42)]);
    app.set_difficulty(Difficulty::Medium);
    win(&mut app);
    assert!(app.tick_after(7));
    assert_eq!(
        app.leaderboard(),
        &vec![Score::new(Difficulty::Easy, 7), Score::new(Difficulty::Medium, 7), Score::new(Difficulty::Easy, 42)]
    );
}

#[test]
fn tick_with_the_clock_records_a_short_win() {
    let mut app = app_on_screen(Difficulty::Easy);
    win(&mut app);
    assert!(app.tick());
    assert_eq!(app.leaderboard().len(), 1);
    assert_eq!(app.leaderboard()[0].difficulty(), Difficulty::Easy);
    assert!(app.leaderboard()[0].time() < 60);
}

#[test]
fn tick_runs_the_animation_of_a_lost_game() {
    let mut app = app_on_screen(Difficulty::Easy);
    let (x, y) = at((5, 4));
    app.left_click(x, y);
    let mine = cells(app.board()).into_iter().find(|(_, t)| t.is_mine).unwrap().0;
    let (x, y) = at(mine);
    app.left_click(x, y);
    assert!(matches!(app.board().phase(), Phase::Lost { .. }));
    let mut ticks = 0;
    while !app.board().check_all_mine_state(TileState::Visible) {
        assert!(!app.tick_after(1));
        ticks += 1;
        assert!(ticks < 1000);
    }
    assert!(app.leaderboard().is_empty());
    // once every mine is open, a tick puts the light out
    app.tick_after(1);
    assert!(cells(app.board()).iter().all(|(_, t)| !t.fire));
    match app.board().phase() {
        Phase::Lost { animation_progress, .. } => assert_eq!(animation_progress, 4 + ticks),
        _ => unreachable!(),
    }
}

#[test]
fn update_size_lays_out_a_board_that_has_not_started() {
    let mut app = App::new(Difficulty::Hard, AREA, Vec::new());
    app.update_size((200, 26));
    assert_eq!(app.board().get_board_size(), (60, 8));
    assert_eq!(app.get_board_size_with_border(), (182, 26));
}

#[test]
fn leaderboard_widget_lists_the_current_difficulty() {
    let mut app = App::new(
        Difficulty::Easy,
        AREA,
        vec![Score::new(Difficulty::Easy, 30), Score::new(Difficulty::Hard, 3), Score::new(Difficulty::Easy, 4)],
    );
    let items = app.get_leaderboard_widget();
    let texts: Vec<String> = items.iter().map(|l| l.iter().map(|g| g.text.as_str()).collect()).collect();
    assert_eq!(texts, vec!["Easy: 4s", "Easy: 30s"]);
    app.set_difficulty(Difficulty::Hard);
    let items = app.get_leaderboard_widget();
    let texts: Vec<String> = items.iter().map(|l| l.iter().map(|g| g.text.as_str()).collect()).collect();
    assert_eq!(texts, vec!["Hard: 3s"]);
}

#[test]
fn board_widget_has_a_title_and_the_lines_of_the_board() {
    let app = App::new(Difficulty::Easy, AREA, Vec::new());
    let widget = app.get_board_widget();
    let title: String = widget.title.iter().map(|g| g.text.as_str()).collect();
    assert_eq!(title, "Minesweeper: Easy - 0s");
    assert_eq!(widget.text.len(), 24);
    let widget = app.get_board_widget_after(75);
    let title: String = widget.title.iter().map(|g| g.text.as_str()).collect();
    assert_eq!(title, "Minesweeper: Easy - 75s");
}

#[test]
fn centre_puts_the_panel_in_the_middle() {
    let screen = Area { x: 0, y: 0, width: 100, height: 50 };
    // 68 columns and 24 rows to spare: 34 columns and 12 rows on each side
    assert_eq!(
        centre(screen, 32, 26),
        vec![
            Area { x: 0, y: 12, width: 34, height: 26 },
            Area { x: 34, y: 12, width: 32, height: 26 },
            Area { x: 66, y: 12, width: 34, height: 26 },
        ]
    );
}

#[test]
fn centre_of_an_area_just_large_enough() {
    let screen = Area { x: 3, y: 4, width: 32, height: 26 };
    let panels = centre(screen, 32, 26);
    assert_eq!(panels.len(), 3);
    assert_eq!(panels[1], screen);
    assert_eq!(panels[0].width, 0);
    assert_eq!(panels[2].width, 0);
}

#[test]
fn render_places_the_board_and_takes_note_of_it() {
    let mut app = App::new(Difficulty::Easy, AREA, vec![Score::new(Difficulty::Easy, 9)]);
    let screen = render(&mut app, Area { x: 0, y: 0, width: 100, height: 50 });
    assert_eq!(screen.board_area, Area { x: 34, y: 12, width: 32, height: 26 });
    assert_eq!(app.board_rect, screen.board_area);
    assert_eq!(screen.instructions_area, Area { x: 0, y: 12, width: 34, height: 26 });
    assert_eq!(screen.leaderboard_area, Area { x: 66, y: 12, width: 34, height: 26 });
    assert!(screen.dialogue.is_none());
    assert_eq!(screen.board.text.len(), 24);
    let title: String = screen.board.title.iter().map(|g| g.text.as_str()).collect();
    assert_eq!(title, "Minesweeper: Easy - 0s");
    assert_eq!(screen.leaderboard.len(), 1);
    // a click in the middle of the first cell as the screen shows it
    app.left_click(34 + 1 + 1 + 3 * 4, 12 + 1 + 1 + 3 * 2);
    assert_eq!(app.board().tile(4, 2).unwrap().state, TileState::Visible);
}

#[test]
fn render_shows_the_dialogue_while_a_preset_is_selected() {
    let mut app = App::new(Difficulty::Hard, AREA, Vec::new());
    app.change_difficulty = true;
    let screen = render(&mut app, Area { x: 0, y: 0, width: 200, height: 100 });
    let dialogue = screen.dialogue.unwrap();
    assert_eq!(dialogue.selected, 2);
    // 170 columns and 92 rows to spare
    assert_eq!(dialogue.area, Area { x: 85, y: 46, width: 30, height: 8 });
    assert_eq!(screen.board_area.width, 20 * 3 + 2);
    assert_eq!(screen.board_area.height, 24 * 3 + 2);
}
