//! What the screen is to show of a cell, a preset and a best time: pieces
//! of text with their colours, for the terminal to draw.

use vstd::prelude::*;
use vstd::string::*;
use crate::difficulty::Difficulty;
use crate::score::{decimal, push_decimal, Score};
use crate::tile::{Tile, TileState};

verus! {

/// A colour of the terminal.
#[derive(Clone, Copy, PartialEq, Eq, Hash, Debug, Structural)]
pub enum Shade {
    Black,
    Red,
    Green,
    Yellow,
    Blue,
    Gray,
    DarkGray,
    LightRed,
    LightGreen,
    LightYellow,
    LightBlue,
    LightMagenta,
    LightCyan,
    White,
}

/// A piece of text with the colours and the weight it is drawn in.
#[derive(Clone, PartialEq, Eq, Debug)]
pub struct Glyph {
    pub text: String,
    pub fg: Option<Shade>,
    pub bg: Option<Shade>,
    pub bold: bool,
    pub italic: bool,
}

/// What a glyph is.
pub ghost struct GlyphView {
    pub text: Seq<char>,
    pub fg: Option<Shade>,
    pub bg: Option<Shade>,
    pub bold: bool,
    pub italic: bool,
}

impl View for Glyph {
    type V = GlyphView;

    open spec fn view(&self) -> GlyphView {
        GlyphView { text: self.text@, fg: self.fg, bg: self.bg, bold: self.bold, italic: self.italic }
    }
}

impl GlyphView {
    /// The text in the colours of the terminal.
    pub open spec fn raw(text: Seq<char>) -> GlyphView {
        GlyphView { text, fg: None, bg: None, bold: false, italic: false }
    }

    /// The glyph in the given colour.
    pub open spec fn on(self, shade: Shade) -> GlyphView {
        GlyphView { fg: Some(shade), ..self }
    }

    /// The glyph in the given colour, or as it is where none is given.
    pub open spec fn tinted(self, shade: Option<Shade>) -> GlyphView {
        match shade {
            Some(shade) => self.on(shade),
            None => self,
        }
    }

    /// The glyph on a ground of the given colour.
    pub open spec fn over(self, shade: Shade) -> GlyphView {
        GlyphView { bg: Some(shade), ..self }
    }

    /// The glyph in bold.
    pub open spec fn heavy(self) -> GlyphView {
        GlyphView { bold: true, ..self }
    }

    /// The glyph in italics.
    pub open spec fn slanted(self) -> GlyphView {
        GlyphView { italic: true, ..self }
    }
}

/// What the glyphs are.
pub open spec fn glyph_views(glyphs: Seq<Glyph>) -> Seq<GlyphView> {
    glyphs.map_values(|g: Glyph| g@)
}

/// What the lines of glyphs are.
pub open spec fn line_views(lines: Seq<Vec<Glyph>>) -> Seq<Seq<GlyphView>> {
    lines.map_values(|l: Vec<Glyph>| glyph_views(l@))
}

impl Glyph {
    /// The text in the colours of the terminal.
    pub fn raw(text: &str) -> (glyph: Glyph)
        ensures
            glyph@ == GlyphView::raw(text@),
    {
        Glyph { text: String::from_str(text), fg: None, bg: None, bold: false, italic: false }
    }

    /// The glyph in the given colour.
    pub fn fg(self, shade: Shade) -> (glyph: Glyph)
        ensures
            glyph@ == self@.on(shade),
    {
        Glyph { fg: Some(shade), ..self }
    }

    /// The glyph on a ground of the given colour.
    pub fn bg(self, shade: Shade) -> (glyph: Glyph)
        ensures
            glyph@ == self@.over(shade),
    {
        Glyph { bg: Some(shade), ..self }
    }

    /// The glyph in bold.
    pub fn bold(self) -> (glyph: Glyph)
        ensures
            glyph@ == self@.heavy(),
    {
        Glyph { bold: true, ..self }
    }

    /// The glyph in italics.
    pub fn italic(self) -> (glyph: Glyph)
        ensures
            glyph@ == self@.slanted(),
    {
        Glyph { italic: true, ..self }
    }
}

/// The colour of a preset.
pub open spec fn shade_of(difficulty: Difficulty) -> Shade {
    match difficulty {
        Difficulty::Easy => Shade::Green,
        Difficulty::Medium => Shade::Yellow,
        Difficulty::Hard => Shade::Red,
    }
}

/// The colour of a count of mines from 1 to 8.
pub open spec fn shade_of_count(num: int) -> Shade {
    if num == 1 {
        Shade::LightBlue
    } else if num == 2 {
        Shade::LightGreen
    } else if num == 3 {
        Shade::LightRed
    } else if num == 4 {
        Shade::LightMagenta
    } else if num == 5 {
        Shade::LightYellow
    } else if num == 6 {
        Shade::LightCyan
    } else if num == 7 {
        Shade::Black
    } else {
        Shade::Gray
    }
}

/// The cell is open and empty, and so drawn as a gap.
pub open spec fn is_gap(t: Tile) -> bool {
    t.state == TileState::Visible && t.is_empty()
}

/// The colour of the frame of a cell: red round an open mine, dark grey
/// round an open count, the terminal's own round a closed cell.
pub open spec fn frame_shade(t: Tile) -> Option<Shade> {
    if t.state != TileState::Visible {
        None
    } else if t.is_mine {
        Some(Shade::Red)
    } else {
        Some(Shade::DarkGray)
    }
}

/// The mark in the middle of a cell: a question mark, a flag, a mine, or
/// the count of an open cell with a mine beside it.
pub open spec fn mark_of(t: Tile) -> GlyphView {
    match t.state {
        TileState::Question => GlyphView::raw("?"@).on(Shade::Blue).heavy().over(Shade::White),
        TileState::Marked => GlyphView::raw("⚑"@).on(Shade::Red).heavy().over(Shade::White),
        _ => if t.is_mine {
            GlyphView::raw("*"@).heavy().over(Shade::Red)
        } else {
            GlyphView::raw(decimal(t.bombs_near as nat)).on(shade_of_count(t.bombs_near as int)).heavy().over(
                Shade::DarkGray,
            )
        },
    }
}

/// One of the three lines of a cell before the animation lights it: a gap
/// for an open, empty cell; else the upper or the lower edge of the frame,
/// or, in the middle, the block of a hidden cell or the mark of any other
/// between the edges of the frame.
pub open spec fn unlit_glyphs(t: Tile, sub_line: int) -> Seq<GlyphView> {
    if is_gap(t) {
        seq![GlyphView::raw("   "@)]
    } else if sub_line == 0 {
        seq![GlyphView::raw("▗▄▖"@).tinted(frame_shade(t))]
    } else if sub_line == 2 {
        seq![GlyphView::raw("▝▀▘"@).tinted(frame_shade(t))]
    } else if t.state == TileState::Hidden {
        seq![GlyphView::raw("▐█▌"@)]
    } else {
        seq![
            GlyphView::raw("▐"@).tinted(frame_shade(t)),
            mark_of(t),
            GlyphView::raw("▌"@).tinted(frame_shade(t)),
        ]
    }
}

/// One of the three lines of a cell: where the animation lights the cell,
/// every glyph but the second stands on red.
pub open spec fn tile_glyphs(t: Tile, sub_line: int) -> Seq<GlyphView> {
    let unlit = unlit_glyphs(t, sub_line);
    if t.fire {
        Seq::new(
            unlit.len(),
            |i: int|
                if i == 1 {
                    unlit[i]
                } else {
                    unlit[i].over(Shade::Red)
                },
        )
    } else {
        unlit
    }
}

/// One line of the matrix as far as column `n`: the line `sub_line` of
/// the cells of row `y`, from the left.
pub open spec fn row_glyphs(g: Seq<Seq<Tile>>, y: int, sub_line: int, n: int) -> Seq<GlyphView>
    decreases n,
{
    if n <= 0 {
        Seq::empty()
    } else {
        row_glyphs(g, y, sub_line, n - 1) + tile_glyphs(g[n - 1][y], sub_line)
    }
}

/// The lines in which a matrix of `w` by `h` cells is drawn: three for
/// each row of cells, from the top.
pub open spec fn matrix_glyphs(g: Seq<Seq<Tile>>, w: int, h: int) -> Seq<Seq<GlyphView>> {
    Seq::new((3 * h) as nat, |k: int| row_glyphs(g, k / 3, k % 3, w))
}

/// The line of a best time: the name of the preset in its colour, a colon
/// and a space, the seconds in bold blue, and an s.
pub open spec fn score_glyphs(score: Score) -> Seq<GlyphView> {
    seq![
        GlyphView::raw(score.difficulty.label()).slanted().on(shade_of(score.difficulty)),
        GlyphView::raw(": "@),
        GlyphView::raw(decimal(score.secs as nat)).on(Shade::Blue).heavy(),
        GlyphView::raw("s"@),
    ]
}

/// The title of the board: the name of the game in bold, the name of the
/// preset in its colour, and the seconds that the game has taken.
pub open spec fn title_glyphs(difficulty: Difficulty, secs: u64) -> Seq<GlyphView> {
    seq![
        GlyphView::raw("Minesweeper: "@).heavy(),
        GlyphView::raw(difficulty.label()).slanted().on(shade_of(difficulty)),
        GlyphView::raw(" - "@ + decimal(secs as nat) + "s"@),
    ]
}

/// The title of the board.
pub fn title(difficulty: Difficulty, secs: u64) -> (line: Vec<Glyph>)
    ensures
        glyph_views(line@) == title_glyphs(difficulty, secs),
{
    let mut time = String::from_str(" - ");
    push_decimal(&mut time, secs);
    time.append("s");
    let mut line: Vec<Glyph> = Vec::new();
    line.push(Glyph::raw("Minesweeper: ").bold());
    line.push(difficulty.as_span());
    line.push(Glyph { text: time, fg: None, bg: None, bold: false, italic: false });
    assert(glyph_views(line@) =~= title_glyphs(difficulty, secs));
    line
}

impl Score {
    /// The line of the best time in the list of best times.
    pub fn as_list_item(&self) -> (line: Vec<Glyph>)
        ensures
            glyph_views(line@) == score_glyphs(*self),
    {
        let mut secs = String::new();
        push_decimal(&mut secs, self.secs);
        assert(secs@ =~= decimal(self.secs as nat));
        let mut line: Vec<Glyph> = Vec::new();
        line.push(self.difficulty.as_span());
        line.push(Glyph::raw(": "));
        line.push((Glyph { text: secs, fg: None, bg: None, bold: false, italic: false }).fg(Shade::Blue).bold());
        line.push(Glyph::raw("s"));
        assert(glyph_views(line@) =~= score_glyphs(*self));
        line
    }
}

/// The glyph of a count of mines from 1 to 8: its digit in its colour.
pub fn num_as_span(num: usize) -> (glyph: Glyph)
    requires
        1 <= num <= 8,
    ensures
        glyph@ == GlyphView::raw(decimal(num as nat)).on(shade_of_count(num as int)),
{
    let mut digit = String::new();
    push_decimal(&mut digit, num as u64);
    assert(digit@ =~= decimal(num as nat));
    let glyph = Glyph { text: digit, fg: None, bg: None, bold: false, italic: false };
    match num {
        1 => glyph.fg(Shade::LightBlue),
        2 => glyph.fg(Shade::LightGreen),
        3 => glyph.fg(Shade::LightRed),
        4 => glyph.fg(Shade::LightMagenta),
        5 => glyph.fg(Shade::LightYellow),
        6 => glyph.fg(Shade::LightCyan),
        7 => glyph.fg(Shade::Black),
        _ => glyph.fg(Shade::Gray),
    }
}

impl Difficulty {
    /// The name of the preset in italics and in its colour.
    pub fn as_span(self) -> (glyph: Glyph)
        ensures
            glyph@ == GlyphView::raw(self.label()).slanted().on(shade_of(self)),
    {
        let span = Glyph::raw(self.as_static_str()).italic();
        match self {
            Difficulty::Easy => span.fg(Shade::Green),
            Difficulty::Medium => span.fg(Shade::Yellow),
            Difficulty::Hard => span.fg(Shade::Red),
        }
    }
}

/// The glyph on red where the animation lights the cell.
fn lit_if(glyph: Glyph, fire: bool) -> (lit: Glyph)
    ensures
        lit@ == if fire {
            glyph@.over(Shade::Red)
        } else {
            glyph@
        },
{
    if fire {
        glyph.bg(Shade::Red)
    } else {
        glyph
    }
}

impl Tile {
    /// One of the three lines in which the cell is drawn, three characters
    /// wide. A count that is shown is 8 at most.
    pub fn as_span(&self, sub_line: usize) -> (line: Vec<Glyph>)
        requires
            sub_line < 3,
            sub_line == 1 && self.state == TileState::Visible && !self.is_mine ==> self.bombs_near <= 8,
        ensures
            glyph_views(line@) == tile_glyphs(*self, sub_line as int),
    {
        let fire = self.fire;
        let mut line: Vec<Glyph> = Vec::new();
        if sub_line == 1 {
            match self.tile_state() {
                TileState::Hidden => {
                    line.push(lit_if(Glyph::raw("▐█▌"), fire));
                },
                TileState::Question => {
                    line.push(lit_if(Glyph::raw("▐"), fire));
                    line.push(Glyph::raw("?").fg(Shade::Blue).bold().bg(Shade::White));
                    line.push(lit_if(Glyph::raw("▌"), fire));
                },
                TileState::Marked => {
                    line.push(lit_if(Glyph::raw("▐"), fire));
                    line.push(Glyph::raw("⚑").fg(Shade::Red).bold().bg(Shade::White));
                    line.push(lit_if(Glyph::raw("▌"), fire));
                },
                TileState::Visible => {
                    if self.is_mine() {
                        line.push(lit_if(Glyph::raw("▐").fg(Shade::Red), fire));
                        line.push(Glyph::raw("*").bold().bg(Shade::Red));
                        line.push(lit_if(Glyph::raw("▌").fg(Shade::Red), fire));
                    } else if self.bombs_near() == 0 {
                        line.push(lit_if(Glyph::raw("   "), fire));
                    } else {
                        line.push(lit_if(Glyph::raw("▐").fg(Shade::DarkGray), fire));
                        line.push(num_as_span(self.bombs_near()).bold().bg(Shade::DarkGray));
                        line.push(lit_if(Glyph::raw("▌").fg(Shade::DarkGray), fire));
                    }
                },
            }
        } else {
            let span = if sub_line == 0 {
                Glyph::raw("▗▄▖")
            } else {
                Glyph::raw("▝▀▘")
            };
            if self.tile_state() == TileState::Visible {
                if self.is_mine() {
                    line.push(lit_if(span.fg(Shade::Red), fire));
                } else if self.bombs_near() == 0 {
                    line.push(lit_if(Glyph::raw("   "), fire));
                } else {
                    line.push(lit_if(span.fg(Shade::DarkGray), fire));
                }
            } else {
                line.push(lit_if(span, fire));
            }
        }
        assert(glyph_views(line@) =~= tile_glyphs(*self, sub_line as int));
        line
    }
}

} // verus!
