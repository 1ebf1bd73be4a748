//! The division of the screen into panels.

use vstd::prelude::*;
use ratatui::layout::{Constraint, Direction, Layout, Rect};

verus! {

/// A rectangle of the screen.
#[derive(Clone, Copy, PartialEq, Eq, Debug, Structural)]
pub struct Area {
    pub x: u16,
    pub y: u16,
    pub width: u16,
    pub height: u16,
}

/// The direction in which an area is divided: into rows, one above the
/// other, or into columns, side by side.
#[derive(Clone, Copy, PartialEq, Eq, Debug, Structural)]
pub enum Axis {
    Vertical,
    Horizontal,
}

/// `Layout::split` of ratatui, for an area divided along one direction into
/// a part of length `side`, a part of at least `middle`, and another part
/// of length `side`: it returns one rectangle for each of the three parts.
/// Which rectangles they are is left open: a constraint solver finds them.
#[verifier::external_body]
pub(crate) fn split_in_three(axis: Axis, area: Area, side: u16, middle: u16) -> (parts: Vec<Area>)
    ensures
        parts.len() == 3,
{
    let direction = match axis {
        Axis::Vertical => Direction::Vertical,
        Axis::Horizontal => Direction::Horizontal,
    };
    Layout::new(direction, [Constraint::Length(side), Constraint::Min(middle), Constraint::Length(side)])
        .split(Rect { x: area.x, y: area.y, width: area.width, height: area.height })
        .iter()
        .map(|r| Area { x: r.x, y: r.y, width: r.width, height: r.height })
        .collect()
}

/// The three panels of an area with a panel of at least `width` by
/// `height` in its middle: the area is divided into three rows, with the
/// panel's row between two rows each half as high as what the panel
/// leaves of the area, and the middle row in the same way into three
/// columns. The panels are the columns, from the left.
pub fn centre(area: Area, width: u16, height: u16) -> (panels: Vec<Area>)
    ensures
        panels.len() == 3,
{
    let spare_x = area.width.saturating_sub(width);
    let spare_y = area.height.saturating_sub(height);
    let vertical = split_in_three(Axis::Vertical, area, spare_y / 2, height);
    split_in_three(Axis::Horizontal, vertical[1], spare_x / 2, width)
}

} // verus!
