use termsweeper::render::{num_as_span, title, Glyph, Shade};
use termsweeper::{Difficulty, Score, Tile, TileState};

fn glyph(text: &str, fg: Option<Shade>, bg: Option<Shade>, bold: bool, italic: bool) -> Glyph {
    Glyph { text: text.to_string(), fg, bg, bold, italic }
}

fn plain(text: &str) -> Glyph {
    glyph(text, None, None, false, false)
}

fn tile(is_mine: bool, state: TileState, bombs_near: usize, fire: bool) -> Tile {
    Tile { is_mine, state, bombs_near, fire }
}

#[test]
fn glyph_builders() {
    assert_eq!(Glyph::raw("x"), plain("x"));
    assert_eq!(Glyph::raw("x").fg(Shade::Red), glyph("x", Some(Shade::Red), None, false, false));
    assert_eq!(Glyph::raw("x").bg(Shade::Blue), glyph("x", None, Some(Shade::Blue), false, false));
    assert_eq!(Glyph::raw("x").bold().italic(), glyph("x", None, None, true, true));
    assert_eq!(
        Glyph::raw("x").bg(Shade::White).bg(Shade::Red).fg(Shade::Green).fg(Shade::Gray),
        glyph("x", Some(Shade::Gray), Some(Shade::Red), false, false)
    );
}

#[test]
fn hidden_tile() {
    let t = tile(true, TileState::Hidden, 2, false);
    assert_eq!(t.as_span(0), vec![plain("▗▄▖")]);
    assert_eq!(t.as_span(1), vec![plain("▐█▌")]);
    assert_eq!(t.as_span(2), vec![plain("▝▀▘")]);
}

#[test]
fn question_and_flag() {
    let t = tile(false, TileState::Question, 0, false);
    assert_eq!(t.as_span(0), vec![plain("▗▄▖")]);
    assert_eq!(
        t.as_span(1),
        vec![plain("▐"), glyph("?", Some(Shade::Blue), Some(Shade::White), true, false), plain("▌")]
    );
    let t = tile(true, TileState::Marked, 0, false);
    assert_eq!(
        t.as_span(1),
        vec![plain("▐"), glyph("⚑", Some(Shade::Red), Some(Shade::White), true, false), plain("▌")]
    );
    assert_eq!(t.as_span(2), vec![plain("▝▀▘")]);
}

#[test]
fn open_mine() {
    let t = tile(true, TileState::Visible, 0, false);
    let red = Some(Shade::Red);
    assert_eq!(t.as_span(0), vec![glyph("▗▄▖", red, None, false, false)]);
    assert_eq!(
        t.as_span(1),
        vec![glyph("▐", red, None, false, false), glyph("*", None, red, true, false), glyph("▌", red, None, false, false)]
    );
    assert_eq!(t.as_span(2), vec![glyph("▝▀▘", red, None, false, false)]);
}

#[test]
fn open_empty_cell_is_a_gap() {
    let t = tile(false, TileState::Visible, 0, false);
    for sub_line in 0..3 {
        assert_eq!(t.as_span(sub_line), vec![plain("   ")]);
    }
}

#[test]
fn open_count() {
    let t = tile(false, TileState::Visible, 3, false);
    let gray = Some(Shade::DarkGray);
    assert_eq!(t.as_span(0), vec![glyph("▗▄▖", gray, None, false, false)]);
    assert_eq!(
        t.as_span(1),
        vec![
            glyph("▐", gray, None, false, false),
            glyph("3", Some(Shade::LightRed), gray, true, false),
            glyph("▌", gray, None, false, false)
        ]
    );
    assert_eq!(t.as_span(2), vec![glyph("▝▀▘", gray, None, false, false)]);
}

#[test]
fn fire_puts_all_but_the_second_glyph_on_red() {
    let red = Some(Shade::Red);
    let t = tile(false, TileState::Hidden, 1, true);
    assert_eq!(t.as_span(0), vec![glyph("▗▄▖", None, red, false, false)]);
    assert_eq!(t.as_span(1), vec![glyph("▐█▌", None, red, false, false)]);
    let t = tile(false, TileState::Question, 1, true);
    assert_eq!(
        t.as_span(1),
        vec![
            glyph("▐", None, red, false, false),
            glyph("?", Some(Shade::Blue), Some(Shade::White), true, false),
            glyph("▌", None, red, false, false)
        ]
    );
    let t = tile(false, TileState::Visible, 0, true);
    assert_eq!(t.as_span(1), vec![glyph("   ", None, red, false, false)]);
    let t = tile(false, TileState::Visible, 8, true);
    assert_eq!(
        t.as_span(1),
        vec![
            glyph("▐", Some(Shade::DarkGray), red, false, false),
            glyph("8", Some(Shade::Gray), Some(Shade::DarkGray), true, false),
            glyph("▌", Some(Shade::DarkGray), red, false, false)
        ]
    );
}

#[test]
fn counts_have_their_colours() {
    let shades = [
        Shade::LightBlue,
        Shade::LightGreen,
        Shade::LightRed,
        Shade::LightMagenta,
        Shade::LightYellow,
        Shade::LightCyan,
        Shade::Black,
        Shade::Gray,
    ];
    for num in 1..=8usize {
        assert_eq!(num_as_span(num), glyph(&num.to_string(), Some(shades[num - 1]), None, false, false));
    }
}

#[test]
fn difficulty_spans() {
    assert_eq!(Difficulty::Easy.as_span(), glyph("Easy", Some(Shade::Green), None, false, true));
    assert_eq!(Difficulty::Medium.as_span(), glyph("Medium", Some(Shade::Yellow), None, false, true));
    assert_eq!(Difficulty::Hard.as_span(), glyph("Hard", Some(Shade::Red), None, false, true));
}

#[test]
fn score_list_item() {
    assert_eq!(
        Score::new(Difficulty::Medium, 125).as_list_item(),
        vec![
            glyph("Medium", Some(Shade::Yellow), None, false, true),
            plain(": "),
            glyph("125", Some(Shade::Blue), None, true, false),
            plain("s"),
        ]
    );
}

#[test]
fn board_title() {
    assert_eq!(
        title(Difficulty::Hard, 0),
        vec![
            glyph("Minesweeper: ", None, None, true, false),
            glyph("Hard", Some(Shade::Red), None, false, true),
            plain(" - 0s"),
        ]
    );
    assert_eq!(title(Difficulty::Easy, 61)[2], plain(" - 61s"));
}
