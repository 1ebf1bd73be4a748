use termsweeper::clicks::{chord_cells, open_cell, toggle_flag, toggle_question};
use termsweeper::sweep::{all_mines_in, douse, flags_match_mines, open_safe, show_mines};
use termsweeper::{Tile, TileState};

fn grid_with_mines(w: usize, h: usize, mines: &[(usize, usize)]) -> Vec<Vec<Tile>> {
    let mut tiles = vec![vec![Tile::default(); h]; w];
    for &(x, y) in mines {
        tiles[x][y].is_mine = true;
    }
    for x in 0..w {
        for y in 0..h {
            let mut n = 0;
            for &(mx, my) in mines {
                let dx = (mx as i64 - x as i64).abs();
                let dy = (my as i64 - y as i64).abs();
                if dx <= 1 && dy <= 1 && (dx, dy) != (0, 0) {
                    n += 1;
                }
            }
            tiles[x][y].bombs_near = n;
        }
    }
    tiles
}

#[test]
fn open_cell_on_a_count_opens_it_alone() {
    let mut tiles = grid_with_mines(3, 3, &[(0, 0)]);
    assert!(!open_cell(&mut tiles, 1, 1));
    for x in 0..3 {
        for y in 0..3 {
            let expected = if (x, y) == (1, 1) { TileState::Visible } else { TileState::Hidden };
            assert_eq!(tiles[x][y].state, expected);
        }
    }
}

#[test]
fn open_cell_on_an_empty_cell_floods() {
    let mut tiles = grid_with_mines(4, 4, &[(0, 0)]);
    assert!(!open_cell(&mut tiles, 3, 3));
    for x in 0..4 {
        for y in 0..4 {
            let expected = if (x, y) == (0, 0) { TileState::Hidden } else { TileState::Visible };
            assert_eq!(tiles[x][y].state, expected, "at {} {}", x, y);
        }
    }
}

#[test]
fn open_cell_on_a_mine_is_a_loss() {
    let mut tiles = grid_with_mines(3, 3, &[(2, 1)]);
    assert!(open_cell(&mut tiles, 2, 1));
    assert_eq!(tiles[2][1].state, TileState::Visible);
    assert_eq!(tiles[1][1].state, TileState::Hidden);
    // once more on the open mine: it goes off again
    assert!(open_cell(&mut tiles, 2, 1));
}

#[test]
fn open_cell_on_a_flag_does_nothing() {
    let mut tiles = grid_with_mines(3, 3, &[(2, 1)]);
    tiles[2][1].state = TileState::Marked;
    tiles[0][0].state = TileState::Marked;
    let before = tiles.clone();
    assert!(!open_cell(&mut tiles, 2, 1));
    assert!(!open_cell(&mut tiles, 0, 0));
    assert_eq!(tiles, before);
}

#[test]
fn open_cell_on_a_question_mark_opens_it() {
    let mut tiles = grid_with_mines(3, 3, &[(2, 1)]);
    tiles[1][1].state = TileState::Question;
    assert!(!open_cell(&mut tiles, 1, 1));
    assert_eq!(tiles[1][1].state, TileState::Visible);
}

#[test]
fn open_cell_on_an_open_cell_or_off_the_grid_does_nothing() {
    let mut tiles = grid_with_mines(3, 3, &[(2, 1)]);
    tiles[0][0].state = TileState::Visible;
    let before = tiles.clone();
    assert!(!open_cell(&mut tiles, 0, 0));
    assert!(!open_cell(&mut tiles, 3, 0));
    assert!(!open_cell(&mut tiles, 0, 3));
    assert_eq!(tiles, before);
}

#[test]
fn flag_toggle_cycles() {
    let mut tiles = grid_with_mines(2, 2, &[]);
    assert!(toggle_flag(&mut tiles, 0, 0));
    assert_eq!(tiles[0][0].state, TileState::Marked);
    assert!(toggle_flag(&mut tiles, 0, 0));
    assert_eq!(tiles[0][0].state, TileState::Hidden);
    tiles[1][1].state = TileState::Question;
    assert!(toggle_flag(&mut tiles, 1, 1));
    assert_eq!(tiles[1][1].state, TileState::Marked);
    tiles[1][0].state = TileState::Visible;
    assert!(toggle_flag(&mut tiles, 1, 0));
    assert_eq!(tiles[1][0].state, TileState::Visible);
    assert!(!toggle_flag(&mut tiles, 2, 0));
    assert!(!toggle_flag(&mut tiles, 0, 2));
}

#[test]
fn question_toggle_cycles() {
    let mut tiles = grid_with_mines(2, 2, &[]);
    assert!(toggle_question(&mut tiles, 0, 0));
    assert_eq!(tiles[0][0].state, TileState::Question);
    assert!(toggle_question(&mut tiles, 0, 0));
    assert_eq!(tiles[0][0].state, TileState::Hidden);
    tiles[1][1].state = TileState::Marked;
    assert!(toggle_question(&mut tiles, 1, 1));
    assert_eq!(tiles[1][1].state, TileState::Marked);
    tiles[1][0].state = TileState::Visible;
    assert!(toggle_question(&mut tiles, 1, 0));
    assert_eq!(tiles[1][0].state, TileState::Visible);
    assert!(!toggle_question(&mut tiles, 2, 2));
}

#[test]
fn chord_cells_when_flags_match() {
    let mut tiles = grid_with_mines(3, 3, &[(0, 0)]);
    tiles[1][1].state = TileState::Visible;
    tiles[0][0].state = TileState::Marked;
    tiles[2][2].state = TileState::Visible;
    let before = tiles.clone();
    let cells = chord_cells(&mut tiles, 1, 1);
    assert_eq!(cells, vec![(1, 0), (1, 2), (0, 1), (2, 1), (0, 2), (2, 0)]);
    assert_eq!(tiles, before);
}

#[test]
fn chord_cells_when_flags_do_not_match() {
    let mut tiles = grid_with_mines(3, 3, &[(0, 0)]);
    tiles[1][1].state = TileState::Visible;
    assert_eq!(chord_cells(&mut tiles, 1, 1), vec![]);
    tiles[0][0].state = TileState::Marked;
    tiles[0][1].state = TileState::Marked;
    assert_eq!(chord_cells(&mut tiles, 1, 1), vec![]);
    assert_eq!(chord_cells(&mut tiles, 3, 3), vec![]);
}

#[test]
fn mines_in_state() {
    let mut tiles = grid_with_mines(3, 3, &[(0, 0), (2, 2)]);
    assert!(all_mines_in(&tiles, TileState::Hidden));
    assert!(!all_mines_in(&tiles, TileState::Marked));
    tiles[0][0].state = TileState::Marked;
    assert!(!all_mines_in(&tiles, TileState::Marked));
    assert!(!flags_match_mines(&tiles));
    tiles[2][2].state = TileState::Marked;
    assert!(all_mines_in(&tiles, TileState::Marked));
    assert!(flags_match_mines(&tiles));
    tiles[1][1].state = TileState::Marked;
    assert!(all_mines_in(&tiles, TileState::Marked));
    assert!(!flags_match_mines(&tiles));
    let none = grid_with_mines(2, 2, &[]);
    assert!(all_mines_in(&none, TileState::Visible));
}

#[test]
fn sweeps() {
    let mut tiles = grid_with_mines(3, 3, &[(0, 0), (2, 2)]);
    tiles[1][1].fire = true;
    tiles[0][0].fire = true;
    tiles[0][1].state = TileState::Marked;
    douse(&mut tiles);
    assert!(tiles.iter().all(|c| c.iter().all(|t| !t.fire)));
    assert_eq!(tiles[0][1].state, TileState::Marked);
    let mut opened = tiles.clone();
    open_safe(&mut opened);
    for x in 0..3 {
        for y in 0..3 {
            let expected = if opened[x][y].is_mine { TileState::Hidden } else { TileState::Visible };
            assert_eq!(opened[x][y].state, expected);
        }
    }
    show_mines(&mut tiles);
    for x in 0..3 {
        for y in 0..3 {
            let expected = if tiles[x][y].is_mine {
                TileState::Visible
            } else if (x, y) == (0, 1) {
                TileState::Marked
            } else {
                TileState::Hidden
            };
            assert_eq!(tiles[x][y].state, expected);
        }
    }
}
