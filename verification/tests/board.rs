use termsweeper::{Board, Difficulty, Phase, Tile, TileState};

const AREA: (u16, u16) = (200, 100);

fn cells(board: &Board) -> Vec<((usize, usize), Tile)> {
    let (w, h) = board.get_board_size();
    let mut all = Vec::new();
    for x in 0..w {
        for y in 0..h {
            all.push(((x, y), board.tile(x, y).unwrap()));
        }
    }
    all
}

fn neighbours(board: &Board, x: usize, y: usize) -> Vec<((usize, usize), Tile)> {
    cells(board)
        .into_iter()
        .filter(|&((i, j), _)| {
            let dx = (i as i64 - x as i64).abs();
            let dy = (j as i64 - y as i64).abs();
            dx <= 1 && dy <= 1 && (dx, dy) != (0, 0)
        })
        .collect()
}

fn is_lost(board: &Board) -> bool {
    matches!(board.phase(), Phase::Lost { .. })
}

fn is_won(board: &Board) -> bool {
    matches!(board.phase(), Phase::Won { .. })
}

fn check_counts(board: &Board) {
    for ((x, y), t) in cells(board) {
        let n = neighbours(board, x, y).iter().filter(|(_, t)| t.is_mine).count();
        assert_eq!(t.bombs_near, n);
    }
}

#[test]
fn new_board_for_each_difficulty() {
    for (d, size, mines) in
        [(Difficulty::Easy, (10, 8), 10), (Difficulty::Medium, (18, 14), 40), (Difficulty::Hard, (20, 24), 99)]
    {
        let board = Board::new(d, AREA);
        assert_eq!(board.difficulty(), d);
        assert_eq!(board.max_render_size(), AREA);
        assert_eq!(board.get_board_size(), size);
        assert!(matches!(board.phase(), Phase::NotStarted));
        assert!(board.first_move_time().is_none());
        assert!(board.last_move_time().is_none());
        let all = cells(&board);
        assert_eq!(all.iter().filter(|(_, t)| t.is_mine).count(), mines);
        assert!(all.iter().all(|(_, t)| t.state == TileState::Hidden && !t.fire));
        check_counts(&board);
        assert_eq!(board.tile(size.0, 0), None);
        assert_eq!(board.tile(0, size.1), None);
    }
}

#[test]
fn first_click_lands_on_an_empty_cell() {
    for d in [Difficulty::Easy, Difficulty::Medium, Difficulty::Hard] {
        for _ in 0..10 {
            let mut board = Board::new(d, AREA);
            let (w, h) = board.get_board_size();
            for (x, y) in [(0, 0), (w - 1, h - 1), (w / 2, h / 2), (0, h - 1)] {
                let mut board2 = Board::new(d, AREA);
                board2.left_click(x, y);
                let t = board2.tile(x, y).unwrap();
                assert_eq!(t.state, TileState::Visible);
                assert!(!t.is_mine);
                assert_eq!(t.bombs_near, 0);
                assert!(matches!(board2.phase(), Phase::InProgress { .. }));
                assert!(board2.first_move_time().is_some());
                assert!(board2.last_move_time().is_none());
                assert_eq!(board2.get_board_size(), (w, h));
                assert_eq!(cells(&board2).iter().filter(|(_, t)| t.is_mine).count(), d.mines());
                check_counts(&board2);
                // the cascade: every neighbour of an open empty cell is open
                for ((i, j), t) in cells(&board2) {
                    if t.state == TileState::Visible && t.bombs_near == 0 {
                        assert!(neighbours(&board2, i, j).iter().all(|(_, n)| n.state == TileState::Visible));
                    }
                    if t.is_mine {
                        assert_eq!(t.state, TileState::Hidden);
                    }
                }
            }
            board.left_click(0, 0);
            assert_eq!(board.tile(0, 0).unwrap().state, TileState::Visible);
        }
    }
}

#[test]
fn click_off_the_board_does_nothing() {
    let mut board = Board::new(Difficulty::Easy, AREA);
    let before = cells(&board);
    board.left_click(10, 0);
    board.left_click(0, 8);
    board.left_click(usize::MAX, usize::MAX);
    assert_eq!(cells(&board), before);
    assert!(matches!(board.phase(), Phase::NotStarted));
    assert!(board.first_move_time().is_none());
    assert!(board.last_move_time().is_none());
}

#[test]
fn click_on_a_cell_after_a_click_off_the_board_is_still_a_first_click() {
    for _ in 0..50 {
        let mut board = Board::new(Difficulty::Hard, AREA);
        board.left_click(20, 0);
        board.left_click(0, 24);
        let mine = cells(&board).into_iter().find(|(_, t)| t.is_mine).unwrap().0;
        board.left_click(mine.0, mine.1);
        let t = board.tile(mine.0, mine.1).unwrap();
        assert_eq!(t.state, TileState::Visible);
        assert!(!t.is_mine);
        assert_eq!(t.bombs_near, 0);
        assert!(matches!(board.phase(), Phase::InProgress { .. }));
    }
}

#[test]
fn click_off_the_board_in_a_game_under_way_does_nothing() {
    let mut board = Board::new(Difficulty::Easy, AREA);
    board.left_click(3, 3);
    let before = cells(&board);
    board.left_click(10, 3);
    board.left_click(3, 8);
    assert_eq!(cells(&board), before);
    assert!(matches!(board.phase(), Phase::InProgress { .. }));
}

#[test]
fn flagging_every_mine_wins() {
    let mut board = Board::new(Difficulty::Easy, AREA);
    let mines: Vec<(usize, usize)> = cells(&board).into_iter().filter(|(_, t)| t.is_mine).map(|(c, _)| c).collect();
    assert_eq!(mines.len(), 10);
    for (n, &(x, y)) in mines.iter().enumerate() {
        assert!(!is_won(&board));
        assert!(!board.check_all_mine_state(TileState::Marked));
        board.right_click(x, y);
        assert_eq!(board.tile(x, y).unwrap().state, TileState::Marked);
        assert!(board.first_move_time().is_some());
        assert_eq!(is_won(&board), n == 9);
    }
    assert!(is_won(&board));
    assert!(board.last_move_time().is_some());
    assert!(board.check_all_mine_state(TileState::Marked));
    for (_, t) in cells(&board) {
        if t.is_mine {
            assert_eq!(t.state, TileState::Marked);
        } else {
            assert_eq!(t.state, TileState::Visible);
        }
    }
    // the game has ended: no click does anything
    let after = cells(&board);
    board.right_click(mines[0].0, mines[0].1);
    board.left_click(mines[1].0, mines[1].1);
    board.middle_click(mines[2].0, mines[2].1);
    board.do_control_click(0, 0);
    assert_eq!(cells(&board), after);
    assert!(is_won(&board));
}

#[test]
fn a_flag_on_a_cell_without_a_mine_blocks_the_win() {
    let mut board = Board::new(Difficulty::Easy, AREA);
    let all = cells(&board);
    let safe = all.iter().find(|(_, t)| !t.is_mine).unwrap().0;
    board.right_click(safe.0, safe.1);
    for &((x, y), t) in &all {
        if t.is_mine {
            board.right_click(x, y);
        }
    }
    assert!(board.check_all_mine_state(TileState::Marked));
    assert!(!is_won(&board));
    assert!(board.last_move_time().is_none());
    // taking the wrong flag away wins
    board.right_click(safe.0, safe.1);
    assert!(is_won(&board));
    assert_eq!(board.tile(safe.0, safe.1).unwrap().state, TileState::Visible);
}

#[test]
fn an_unflagged_mine_blocks_the_win() {
    let mut board = Board::new(Difficulty::Easy, AREA);
    let mines: Vec<(usize, usize)> = cells(&board).into_iter().filter(|(_, t)| t.is_mine).map(|(c, _)| c).collect();
    for &(x, y) in &mines {
        board.right_click(x, y);
    }
    assert!(is_won(&board));
    let mut board = Board::new(Difficulty::Easy, AREA);
    let mines: Vec<(usize, usize)> = cells(&board).into_iter().filter(|(_, t)| t.is_mine).map(|(c, _)| c).collect();
    for &(x, y) in &mines[1..] {
        board.right_click(x, y);
    }
    assert!(!is_won(&board));
    // a flag set and taken away again
    board.right_click(mines[0].0, mines[0].1);
    assert!(is_won(&board));
}

#[test]
fn right_click_toggles_and_leaves_open_cells() {
    let mut board = Board::new(Difficulty::Easy, AREA);
    board.left_click(0, 0);
    let hidden = cells(&board).into_iter().find(|(_, t)| t.state == TileState::Hidden && !t.is_mine).unwrap().0;
    board.right_click(hidden.0, hidden.1);
    assert_eq!(board.tile(hidden.0, hidden.1).unwrap().state, TileState::Marked);
    board.right_click(hidden.0, hidden.1);
    assert_eq!(board.tile(hidden.0, hidden.1).unwrap().state, TileState::Hidden);
    board.middle_click(hidden.0, hidden.1);
    assert_eq!(board.tile(hidden.0, hidden.1).unwrap().state, TileState::Question);
    board.right_click(hidden.0, hidden.1);
    assert_eq!(board.tile(hidden.0, hidden.1).unwrap().state, TileState::Marked);
    let before = cells(&board);
    board.right_click(0, 0);
    board.right_click(10, 8);
    assert_eq!(cells(&board), before);
}

#[test]
fn right_click_off_the_board_does_not_start_the_game() {
    let mut board = Board::new(Difficulty::Easy, AREA);
    board.right_click(10, 0);
    board.middle_click(0, 8);
    assert!(matches!(board.phase(), Phase::NotStarted));
    board.middle_click(0, 0);
    assert!(matches!(board.phase(), Phase::InProgress { .. }));
}

#[test]
fn middle_click_toggles_the_question_mark() {
    let mut board = Board::new(Difficulty::Easy, AREA);
    board.middle_click(3, 3);
    assert_eq!(board.tile(3, 3).unwrap().state, TileState::Question);
    assert!(board.first_move_time().is_some());
    board.middle_click(3, 3);
    assert_eq!(board.tile(3, 3).unwrap().state, TileState::Hidden);
    board.right_click(3, 3);
    board.middle_click(3, 3);
    assert_eq!(board.tile(3, 3).unwrap().state, TileState::Marked);
    board.right_click(3, 3);
    board.left_click(3, 3);
    let open = cells(&board).into_iter().find(|(_, t)| t.state == TileState::Visible).unwrap().0;
    board.middle_click(open.0, open.1);
    assert_eq!(board.tile(open.0, open.1).unwrap().state, TileState::Visible);
}

#[test]
fn left_click_on_a_flag_does_nothing() {
    let mut board = Board::new(Difficulty::Easy, AREA);
    let mine = cells(&board).into_iter().find(|(_, t)| t.is_mine).unwrap().0;
    board.right_click(mine.0, mine.1);
    let before = cells(&board);
    board.left_click(mine.0, mine.1);
    assert_eq!(cells(&board), before);
    assert!(!is_lost(&board));
}

#[test]
fn clicking_a_mine_after_the_first_move_loses() {
    let mut board = Board::new(Difficulty::Easy, AREA);
    board.left_click(0, 0);
    let mine = cells(&board).into_iter().find(|(_, t)| t.is_mine).unwrap().0;
    board.left_click(mine.0, mine.1);
    assert!(is_lost(&board));
    assert!(board.last_move_time().is_some());
    assert_eq!(board.tile(mine.0, mine.1).unwrap().state, TileState::Visible);
    match board.phase() {
        Phase::Lost { epicenter, animation_progress, .. } => {
            assert_eq!(epicenter, mine);
            assert_eq!(animation_progress, 4);
        }
        _ => unreachable!(),
    }
    // the other mines stay closed, and no click does anything any more
    let others = cells(&board).into_iter().filter(|(c, t)| t.is_mine && *c != mine).count();
    assert_eq!(others, 9);
    assert!(cells(&board).iter().all(|(c, t)| !t.is_mine || *c == mine || t.state != TileState::Visible));
    let before = cells(&board);
    board.left_click(9, 7);
    board.right_click(9, 7);
    board.middle_click(9, 7);
    board.do_control_click(0, 0);
    assert_eq!(cells(&board), before);
}

#[test]
fn the_animation_spreads_in_rings_until_every_mine_is_open() {
    let mut board = Board::new(Difficulty::Medium, AREA);
    board.left_click(0, 0);
    let mine = cells(&board).into_iter().find(|(_, t)| t.is_mine).unwrap().0;
    board.left_click(mine.0, mine.1);
    assert!(is_lost(&board));
    let states_before: Vec<_> = cells(&board).into_iter().map(|(_, t)| t.state).collect();
    let mut ticks = 0u32;
    let mut open_mines = 1;
    while !board.check_all_mine_state(TileState::Visible) {
        board.do_game_over_animation();
        ticks += 1;
        match board.phase() {
            Phase::Lost { epicenter, animation_progress, .. } => {
                assert_eq!(epicenter, mine);
                assert_eq!(animation_progress, 4 + ticks);
            }
            _ => unreachable!(),
        }
        let now = cells(&board);
        // mines only ever open, and a lit cell is never a mine
        let count = now.iter().filter(|(_, t)| t.is_mine && t.state == TileState::Visible).count();
        assert!(count >= open_mines);
        open_mines = count;
        assert!(now.iter().all(|(_, t)| !(t.fire && t.is_mine)));
        // every lit cell lies about as far from the mine as the ring is wide
        let radius = ((4 + ticks - 1) / 4) as i64;
        for ((x, y), t) in &now {
            if t.fire {
                let dx = (*x as i64 - mine.0 as i64).abs();
                let dy = (*y as i64 - mine.1 as i64).abs();
                assert!(dx.max(dy) <= radius, "lit cell {:?} outside the ring of radius {}", (x, y), radius);
                assert!(dx * dx + dy * dy >= (radius - 1) * (radius - 1));
            }
        }
        // cells without a mine keep their states
        for (k, (_, t)) in now.iter().enumerate() {
            if !t.is_mine {
                assert_eq!(t.state, states_before[k]);
            }
        }
        assert!(ticks < 1000);
    }
    assert!(ticks > 1);
    assert_eq!(open_mines, 40);
    board.clear_fire();
    assert!(cells(&board).iter().all(|(_, t)| !t.fire));
}

#[test]
fn first_tick_lights_the_four_cells_beside_the_mine() {
    let mut board = Board::new(Difficulty::Easy, AREA);
    board.left_click(0, 0);
    let all = cells(&board);
    let mine = all.iter().find(|(_, t)| t.is_mine).unwrap().0;
    board.left_click(mine.0, mine.1);
    board.do_game_over_animation();
    for ((x, y), t) in cells(&board) {
        let dx = (x as i64 - mine.0 as i64).abs();
        let dy = (y as i64 - mine.1 as i64).abs();
        let on_ring = dx + dy == 1;
        assert_eq!(t.fire, on_ring && !t.is_mine);
        if t.is_mine && on_ring {
            assert_eq!(t.state, TileState::Visible);
        }
    }
}

#[test]
fn chord_opens_the_neighbours_when_the_flags_are_set() {
    let mut done = 0;
    for _ in 0..200 {
        let mut board = Board::new(Difficulty::Easy, AREA);
        board.left_click(0, 0);
        let target = cells(&board).into_iter().find(|&((x, y), t)| {
            t.state == TileState::Visible
                && t.bombs_near > 0
                && neighbours(&board, x, y).iter().any(|(_, n)| n.state == TileState::Hidden && !n.is_mine)
        });
        let Some(((x, y), _)) = target else { continue };
        for ((i, j), n) in neighbours(&board, x, y) {
            if n.is_mine {
                board.right_click(i, j);
            }
        }
        if is_won(&board) {
            continue;
        }
        let before = cells(&board);
        board.do_control_click(x, y);
        assert!(!is_lost(&board));
        for (_, n) in neighbours(&board, x, y) {
            assert!(n.state == TileState::Visible || n.state == TileState::Marked);
        }
        let after = cells(&board);
        for (k, (_, t)) in after.iter().enumerate() {
            // cells are only opened; mines stay closed
            assert!(t.state == before[k].1.state || t.state == TileState::Visible);
            assert_eq!(t.is_mine, before[k].1.is_mine);
            assert_eq!(t.bombs_near, before[k].1.bombs_near);
            if t.is_mine {
                assert_ne!(t.state, TileState::Visible);
            }
        }
        // the cascade: every newly opened empty cell has open neighbours
        for (k, ((i, j), t)) in after.iter().enumerate() {
            if t.state == TileState::Visible && before[k].1.state != TileState::Visible && t.bombs_near == 0 {
                assert!(neighbours(&board, *i, *j).iter().all(|(_, n)| n.state == TileState::Visible));
            }
        }
        done += 1;
    }
    assert!(done > 50);
}

#[test]
fn chord_with_the_wrong_number_of_flags_does_nothing() {
    let mut done = 0;
    for _ in 0..100 {
        let mut board = Board::new(Difficulty::Easy, AREA);
        board.left_click(0, 0);
        let target = cells(&board).into_iter().find(|(_, t)| t.state == TileState::Visible && t.bombs_near > 0);
        let Some(((x, y), t)) = target else { continue };
        let before = cells(&board);
        // no flag at all
        board.do_control_click(x, y);
        assert_eq!(cells(&board), before);
        // one flag too many
        let hidden: Vec<_> =
            neighbours(&board, x, y).into_iter().filter(|(_, n)| n.state == TileState::Hidden).collect();
        if hidden.len() > t.bombs_near {
            for ((i, j), _) in &hidden[..t.bombs_near + 1] {
                board.right_click(*i, *j);
            }
            if !is_won(&board) {
                let before = cells(&board);
                board.do_control_click(x, y);
                assert_eq!(cells(&board), before);
                done += 1;
            }
        }
    }
    assert!(done > 10);
}

#[test]
fn chord_with_a_wrong_flag_sets_off_the_mine() {
    let mut done = 0;
    for _ in 0..300 {
        let mut board = Board::new(Difficulty::Easy, AREA);
        board.left_click(0, 0);
        let target = cells(&board).into_iter().find(|&((x, y), t)| {
            t.state == TileState::Visible
                && t.bombs_near == 1
                && neighbours(&board, x, y).iter().any(|(_, n)| n.state == TileState::Hidden && !n.is_mine)
        });
        let Some(((x, y), _)) = target else { continue };
        let wrong = neighbours(&board, x, y).into_iter().find(|(_, n)| n.state == TileState::Hidden && !n.is_mine);
        let ((i, j), _) = wrong.unwrap();
        board.right_click(i, j);
        board.do_control_click(x, y);
        // the chord goes on from each cell it opens before it opens the next, so
        // the mine that goes off is the first one on its way
        assert!(is_lost(&board));
        match board.phase() {
            Phase::Lost { epicenter, .. } => {
                let t = board.tile(epicenter.0, epicenter.1).unwrap();
                assert!(t.is_mine);
                assert_eq!(t.state, TileState::Visible);
            }
            _ => unreachable!(),
        }
        let open_mines = cells(&board).iter().filter(|(_, t)| t.is_mine && t.state == TileState::Visible).count();
        assert_eq!(open_mines, 1);
        done += 1;
    }
    assert!(done > 50);
}

#[test]
fn chord_off_the_board_does_nothing() {
    let mut board = Board::new(Difficulty::Easy, AREA);
    board.left_click(0, 0);
    let before = cells(&board);
    board.do_control_click(10, 0);
    board.do_control_click(0, 8);
    assert_eq!(cells(&board), before);
}

#[test]
fn chord_as_the_first_move_opens_round_an_empty_cell() {
    for _ in 0..50 {
        let mut board = Board::new(Difficulty::Easy, AREA);
        let empty = cells(&board).into_iter().find(|(_, t)| !t.is_mine && t.bombs_near == 0).unwrap().0;
        board.do_control_click(empty.0, empty.1);
        assert!(board.first_move_time().is_some());
        assert!(!is_won(&board));
        assert_eq!(cells(&board).iter().filter(|(_, t)| t.is_mine).count(), 10);
        check_counts(&board);
    }
}

#[test]
fn flood_fill_from_an_empty_cell_opens_no_mine() {
    for _ in 0..30 {
        let mut board = Board::new(Difficulty::Hard, AREA);
        let empty = cells(&board).into_iter().find(|(_, t)| !t.is_mine && t.bombs_near == 0).unwrap().0;
        board.flood_fill(empty.0, empty.1);
        assert!(matches!(board.phase(), Phase::NotStarted));
        let now = cells(&board);
        assert!(now.iter().all(|(_, t)| !t.is_mine || t.state == TileState::Hidden));
        for (_, n) in neighbours(&board, empty.0, empty.1) {
            assert_eq!(n.state, TileState::Visible);
        }
        for ((i, j), t) in &now {
            if t.state == TileState::Visible && t.bombs_near == 0 {
                assert!(neighbours(&board, *i, *j).iter().all(|(_, n)| n.state == TileState::Visible));
            }
        }
    }
}

#[test]
fn resize_before_the_first_move_lays_the_board_out_anew() {
    let mut board = Board::new(Difficulty::Medium, AREA);
    assert_eq!(board.get_board_size(), (18, 14));
    board.set_max_board_size((200, 26));
    assert_eq!(board.max_render_size(), (200, 26));
    assert_eq!(board.get_board_size(), (36, 7));
    assert_eq!(cells(&board).iter().filter(|(_, t)| t.is_mine).count(), 40);
    check_counts(&board);
    board.set_max_board_size((36, 200));
    assert_eq!(board.get_board_size(), (7, 36));
}

#[test]
fn resize_after_the_first_move_keeps_the_board() {
    let mut board = Board::new(Difficulty::Medium, AREA);
    board.left_click(4, 4);
    let before = cells(&board);
    board.set_max_board_size((200, 26));
    assert_eq!(board.max_render_size(), (200, 26));
    assert_eq!(board.get_board_size(), (18, 14));
    assert_eq!(cells(&board), before);
    // even an area too small for any board is taken note of
    board.set_max_board_size((1, 1));
    assert_eq!(board.max_render_size(), (1, 1));
    assert_eq!(cells(&board), before);
}

#[test]
fn check_all_mine_state_looks_at_mines_only() {
    let mut board = Board::new(Difficulty::Easy, AREA);
    assert!(board.check_all_mine_state(TileState::Hidden));
    assert!(!board.check_all_mine_state(TileState::Visible));
    let safe = cells(&board).into_iter().find(|(_, t)| !t.is_mine).unwrap().0;
    board.middle_click(safe.0, safe.1);
    assert!(board.check_all_mine_state(TileState::Hidden));
    let mine = cells(&board).into_iter().find(|(_, t)| t.is_mine).unwrap().0;
    board.middle_click(mine.0, mine.1);
    assert!(!board.check_all_mine_state(TileState::Hidden));
}

#[test]
fn widget_has_three_lines_a_row_and_three_characters_a_cell() {
    let mut board = Board::new(Difficulty::Easy, AREA);
    board.left_click(5, 5);
    let text = board.to_widget();
    assert_eq!(text.len(), 24);
    for line in &text {
        let width: usize = line.iter().map(|g| g.text.chars().count()).sum();
        assert_eq!(width, 30);
    }
    // the middle line of row 5 shows the clicked cell as a gap
    let line = &text[5 * 3 + 1];
    let mut column = 0;
    let mut found = false;
    for g in line {
        if column == 15 {
            assert_eq!(g.text, "   ");
            found = true;
        }
        column += g.text.chars().count();
    }
    assert!(found);
}

// Every open cell without a mine and without a count has nothing but open
// cells beside it.
fn check_regions(board: &Board) {
    for ((x, y), t) in cells(board) {
        if t.state == TileState::Visible && !t.is_mine && t.bombs_near == 0 {
            for (c, n) in neighbours(board, x, y) {
                assert_eq!(n.state, TileState::Visible, "{:?} beside the open, empty {:?}", c, (x, y));
            }
        }
    }
}

#[test]
fn open_empty_cells_have_open_neighbours_whatever_is_done() {
    for round in 0..20 {
        let mut board = Board::new(Difficulty::Medium, AREA);
        let (w, h) = board.get_board_size();
        let mut step = round * 7 + 3;
        for _ in 0..60 {
            step = (step * 31 + 17) % 1009;
            let (x, y) = (step % (w + 1), (step / 7) % (h + 1));
            match step % 5 {
                0 => board.left_click(x, y),
                1 => board.right_click(x, y),
                2 => board.middle_click(x, y),
                3 => board.do_control_click(x, y),
                _ => board.flood_fill(x, y),
            }
            if matches!(board.phase(), Phase::Lost { .. }) {
                board.do_game_over_animation();
            }
            check_regions(&board);
            check_counts(&board);
        }
    }
}

#[test]
fn a_win_leaves_the_regions_open() {
    let mut board = Board::new(Difficulty::Easy, AREA);
    let mines: Vec<(usize, usize)> = cells(&board).into_iter().filter(|(_, t)| t.is_mine).map(|(c, _)| c).collect();
    for (x, y) in mines {
        board.right_click(x, y);
    }
    assert!(is_won(&board));
    check_regions(&board);
}

#[test]
fn chord_goes_on_from_the_cells_it_opens() {
    let mut done = 0;
    for _ in 0..200 {
        let mut board = Board::new(Difficulty::Easy, AREA);
        board.left_click(0, 0);
        let target = cells(&board).into_iter().find(|&((x, y), t)| {
            t.state == TileState::Visible
                && t.bombs_near > 0
                && neighbours(&board, x, y).iter().any(|(_, n)| n.state == TileState::Hidden && !n.is_mine)
        });
        let Some(((x, y), _)) = target else { continue };
        // every flag on a mine: those round the cell, and a few more
        let mines: Vec<_> = cells(&board).into_iter().filter(|(_, t)| t.is_mine).map(|(c, _)| c).collect();
        let near: Vec<_> = neighbours(&board, x, y).into_iter().filter(|(_, n)| n.is_mine).map(|(c, _)| c).collect();
        for &(i, j) in &near {
            board.right_click(i, j);
        }
        for &(i, j) in mines.iter().filter(|c| !near.contains(c)).take(4) {
            board.right_click(i, j);
        }
        if is_won(&board) {
            continue;
        }
        let opened: Vec<_> = neighbours(&board, x, y)
            .into_iter()
            .filter(|(_, n)| n.state != TileState::Visible && n.state != TileState::Marked)
            .map(|(c, _)| c)
            .collect();
        let flags_before = cells(&board).iter().filter(|(_, t)| t.state == TileState::Marked).count();
        board.do_control_click(x, y);
        assert!(!is_lost(&board));
        assert_eq!(cells(&board).iter().filter(|(_, t)| t.state == TileState::Marked).count(), flags_before);
        for (i, j) in opened {
            let t = board.tile(i, j).unwrap();
            assert_eq!(t.state, TileState::Visible);
            let around = neighbours(&board, i, j);
            let flags = around.iter().filter(|(_, n)| n.state == TileState::Marked).count();
            if flags == t.bombs_near {
                assert!(around.iter().all(|(_, n)| n.state == TileState::Visible || n.state == TileState::Marked));
            }
        }
        check_regions(&board);
        done += 1;
    }
    assert!(done > 50);
}
