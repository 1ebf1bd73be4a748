//! From a position on the screen to a cell of the board.

use vstd::prelude::*;

verus! {

/// How many columns and rows of the screen a cell takes.
pub const CELL_SPAN: usize = 3;

/// The cell that the screen shows at column `px` and row `py`, where the
/// frame of a board of `w` by `h` cells has its corner at `(ox, oy)`: the
/// frame is one character thick, and each cell takes `CELL_SPAN` columns
/// and rows. Nothing where the position lies on the frame or outside it.
pub open spec fn cell_at(px: int, py: int, ox: int, oy: int, w: int, h: int) -> Option<(usize, usize)> {
    if ox + 1 <= px && oy + 1 <= py && (px - ox - 1) / 3 < w && (py - oy - 1) / 3 < h {
        Some((((px - ox - 1) / 3) as usize, ((py - oy - 1) / 3) as usize))
    } else {
        None
    }
}

/// The cell that the screen shows at `(x, y)`.
pub fn translate(x: usize, y: usize, origin: (u16, u16), board_size: (usize, usize)) -> (cell: Option<
    (usize, usize),
>)
    ensures
        cell == cell_at(
            x as int,
            y as int,
            origin.0 as int,
            origin.1 as int,
            board_size.0 as int,
            board_size.1 as int,
        ),
{
    let x = match x.checked_sub(origin.0 as usize + 1) {
        Some(x) => x.checked_div(CELL_SPAN),
        None => None,
    };
    let y = match y.checked_sub(origin.1 as usize + 1) {
        Some(y) => y.checked_div(CELL_SPAN),
        None => None,
    };
    if let (Some(x), Some(y)) = (x, y) {
        let (board_x, board_y) = board_size;
        if x < board_x && y < board_y {
            Some((x, y))
        } else {
            None
        }
    } else {
        None
    }
}

/// The cell that `cell_at` gives is a cell of the board, and the position
/// lies within the three columns and rows of that cell; a position to the
/// left of the cells, above them, or past the last of them gives none.
pub proof fn cell_at_is_exact(px: int, py: int, ox: int, oy: int, w: int, h: int)
    requires
        0 <= px,
        0 <= py,
        0 <= ox,
        0 <= oy,
        0 <= w <= usize::MAX,
        0 <= h <= usize::MAX,
    ensures
        px <= ox || py <= oy || px > ox + 3 * w || py > oy + 3 * h ==> cell_at(px, py, ox, oy, w, h) is None,
        ox < px <= ox + 3 * w && oy < py <= oy + 3 * h ==> cell_at(px, py, ox, oy, w, h) is Some,
        cell_at(px, py, ox, oy, w, h) matches Some(cell) ==> {
            &&& cell.0 < w
            &&& cell.1 < h
            &&& ox + 1 + 3 * cell.0 <= px < ox + 1 + 3 * (cell.0 + 1)
            &&& oy + 1 + 3 * cell.1 <= py < oy + 1 + 3 * (cell.1 + 1)
        },
{
}

} // verus!
