use termsweeper::{Difficulty, Tile, TileState};

#[test]
fn default_tile_is_hidden_and_blank() {
    let tile = Tile::default();
    assert!(!tile.is_mine());
    assert_eq!(tile.tile_state(), TileState::Hidden);
    assert_eq!(tile.bombs_near(), 0);
    assert!(!tile.fire);
}

#[test]
fn set_state_changes_the_state_only() {
    let mut tile = Tile { is_mine: true, state: TileState::Hidden, bombs_near: 3, fire: true };
    tile.set_state(TileState::Marked);
    assert_eq!(tile, Tile { is_mine: true, state: TileState::Marked, bombs_near: 3, fire: true });
    tile.set_state(TileState::Visible);
    assert_eq!(tile.tile_state(), TileState::Visible);
    assert_eq!(tile.bombs_near(), 3);
}

#[test]
fn difficulty_names() {
    assert_eq!(Difficulty::Easy.as_static_str(), "Easy");
    assert_eq!(Difficulty::Medium.as_static_str(), "Medium");
    assert_eq!(Difficulty::Hard.as_static_str(), "Hard");
}

#[test]
fn difficulty_mines() {
    assert_eq!(Difficulty::Easy.mines(), 10);
    assert_eq!(Difficulty::Medium.mines(), 40);
    assert_eq!(Difficulty::Hard.mines(), 99);
}

#[test]
fn difficulty_cycles_in_order_and_wraps() {
    assert_eq!(Difficulty::Easy.next(), Difficulty::Medium);
    assert_eq!(Difficulty::Medium.next(), Difficulty::Hard);
    assert_eq!(Difficulty::Hard.next(), Difficulty::Easy);
    assert_eq!(Difficulty::Easy.previous(), Difficulty::Hard);
    assert_eq!(Difficulty::Medium.previous(), Difficulty::Easy);
    assert_eq!(Difficulty::Hard.previous(), Difficulty::Medium);
    for d in [Difficulty::Easy, Difficulty::Medium, Difficulty::Hard] {
        assert_eq!(d.next().previous(), d);
        assert_eq!(d.next().next().next(), d);
    }
}

#[test]
fn difficulty_is_ordered() {
    assert!(Difficulty::Easy < Difficulty::Medium);
    assert!(Difficulty::Medium < Difficulty::Hard);
    assert_eq!(Difficulty::Easy.index(), 0);
    assert_eq!(Difficulty::Medium.index(), 1);
    assert_eq!(Difficulty::Hard.index(), 2);
}
