use termsweeper::mapper::translate;

#[test]
fn positions_left_of_or_above_the_cells_map_to_none() {
    // the frame has its corner at (10, 5): the cells begin at (11, 6)
    assert_eq!(translate(0, 0, (10, 5), (10, 8)), None);
    assert_eq!(translate(10, 6, (10, 5), (10, 8)), None);
    assert_eq!(translate(11, 5, (10, 5), (10, 8)), None);
    assert_eq!(translate(9, 20, (10, 5), (10, 8)), None);
    assert_eq!(translate(20, 4, (10, 5), (10, 8)), None);
}

#[test]
fn first_cell_spans_three_columns_and_rows() {
    for x in 11..14 {
        for y in 6..9 {
            assert_eq!(translate(x, y, (10, 5), (10, 8)), Some((0, 0)));
        }
    }
    assert_eq!(translate(14, 6, (10, 5), (10, 8)), Some((1, 0)));
    assert_eq!(translate(11, 9, (10, 5), (10, 8)), Some((0, 1)));
}

#[test]
fn last_cell_spans_three_columns_and_rows() {
    // the last cell (9, 7) takes the columns 38 to 40 and the rows 27 to 29
    for x in 38..41 {
        for y in 27..30 {
            assert_eq!(translate(x, y, (10, 5), (10, 8)), Some((9, 7)));
        }
    }
}

#[test]
fn positions_past_the_last_cell_map_to_none() {
    assert_eq!(translate(41, 27, (10, 5), (10, 8)), None);
    assert_eq!(translate(38, 30, (10, 5), (10, 8)), None);
    assert_eq!(translate(1000, 1000, (10, 5), (10, 8)), None);
    assert_eq!(translate(usize::MAX, usize::MAX, (10, 5), (10, 8)), None);
    assert_eq!(translate(usize::MAX, 6, (u16::MAX, u16::MAX), (10, 8)), None);
}

#[test]
fn a_cell_in_the_middle() {
    // (25 - 0 - 1) / 3 = 8 and (13 - 0 - 1) / 3 = 4
    assert_eq!(translate(25, 13, (0, 0), (18, 14)), Some((8, 4)));
    assert_eq!(translate(0, 0, (0, 0), (18, 14)), None);
    assert_eq!(translate(1, 1, (0, 0), (18, 14)), Some((0, 0)));
}

#[test]
fn an_empty_board_has_no_cell() {
    assert_eq!(translate(1, 1, (0, 0), (0, 0)), None);
}
