use termsweeper::animation::{do_game_over_animation_tile, draw_ring};
use termsweeper::circle::{circle_perimeter, circle_points};
use termsweeper::{Tile, TileState};

// The midpoint method in floating point, as a yardstick.
fn points_by_floats(center: (usize, usize), x: isize, y: isize) -> Vec<(i64, i64)> {
    let (cx, cy) = (center.0 as isize, center.1 as isize);
    let mut points = Vec::new();
    if x == 0 {
        points.push((cx, cy + y));
        points.push((cx, cy - y));
        points.push((cx + y, cy));
        points.push((cx - y, cy));
    }
    if x == y {
        points.push((cx + x, cy + y));
        points.push((cx - x, cy + y));
        points.push((cx + x, cy - y));
        points.push((cx - x, cy - y));
    } else if x < y {
        points.push((cx + x, cy + y));
        points.push((cx - x, cy + y));
        points.push((cx + x, cy - y));
        points.push((cx - x, cy - y));
        points.push((cx + y, cy + x));
        points.push((cx - y, cy + x));
        points.push((cx + y, cy - x));
        points.push((cx - y, cy - x));
    }
    points.into_iter().map(|(a, b)| (a as i64, b as i64)).collect()
}

fn perimeter_by_floats(center: (usize, usize), radius: f64) -> Vec<(i64, i64)> {
    let mut x = 0;
    let mut y = radius as isize;
    let mut p = radius.mul_add(-4., 5.) / 4.;
    let mut points = points_by_floats(center, x, y);
    while x < y {
        x += 1;
        if p < 0. {
            p += 2.0f64.mul_add(x as f64, 1.);
        } else {
            y -= 1;
            p += 2.0f64.mul_add(x as f64 - y as f64, 1.);
        }
        points.append(&mut points_by_floats(center, x, y));
    }
    points
}

#[test]
fn circle_points_on_the_axis() {
    assert_eq!(
        circle_points((5, 5), 0, 2),
        vec![(5, 7), (5, 3), (7, 5), (3, 5), (5, 7), (5, 7), (5, 3), (5, 3), (7, 5), (3, 5), (7, 5), (3, 5)]
    );
}

#[test]
fn circle_points_on_the_diagonal() {
    assert_eq!(circle_points((5, 5), 2, 2), vec![(7, 7), (3, 7), (7, 3), (3, 3)]);
}

#[test]
fn circle_points_in_the_octant() {
    assert_eq!(
        circle_points((5, 5), 1, 3),
        vec![(6, 8), (4, 8), (6, 2), (4, 2), (8, 6), (2, 6), (8, 4), (2, 4)]
    );
}

#[test]
fn circle_points_past_the_diagonal() {
    assert_eq!(circle_points((5, 5), 3, 2), vec![]);
}

#[test]
fn circle_points_at_the_centre() {
    assert_eq!(
        circle_points((1, 2), 0, 0),
        vec![(1, 2), (1, 2), (1, 2), (1, 2), (1, 2), (1, 2), (1, 2), (1, 2)]
    );
}

#[test]
fn perimeter_of_radius_one() {
    // radius 1: the four neighbours on the axes, each three times, and nothing more
    assert_eq!(
        circle_perimeter((3, 3), 4),
        vec![(3, 4), (3, 2), (4, 3), (2, 3), (3, 4), (3, 4), (3, 2), (3, 2), (4, 3), (2, 3), (4, 3), (2, 3)]
    );
}

#[test]
fn perimeter_agrees_with_floats() {
    for quarters in 0..400u32 {
        for center in [(0usize, 0usize), (3, 7), (59, 59)] {
            assert_eq!(
                circle_perimeter(center, quarters),
                perimeter_by_floats(center, quarters as f64 / 4.0),
                "radius of {} quarters round {:?}",
                quarters,
                center
            );
        }
    }
}

#[test]
fn perimeter_of_a_large_radius_agrees_with_floats() {
    assert_eq!(circle_perimeter((10, 20), 40_001), perimeter_by_floats((10, 20), 40_001.0 / 4.0));
}

#[test]
fn animation_tile() {
    let mut tiles = vec![vec![Tile::default(); 2]; 2];
    tiles[0][0].is_mine = true;
    assert!(do_game_over_animation_tile(&mut tiles, 0, 0));
    assert_eq!(tiles[0][0].state, TileState::Visible);
    assert!(!tiles[0][0].fire);
    assert!(do_game_over_animation_tile(&mut tiles, 1, 1));
    assert_eq!(tiles[1][1].state, TileState::Hidden);
    assert!(tiles[1][1].fire);
    assert!(!do_game_over_animation_tile(&mut tiles, 2, 0));
    assert!(!do_game_over_animation_tile(&mut tiles, 0, 2));
}

#[test]
fn ring_lights_cells_and_opens_mines() {
    let mut tiles = vec![vec![Tile::default(); 5]; 5];
    tiles[2][2].is_mine = true;
    tiles[2][2].state = TileState::Visible;
    tiles[2][3].is_mine = true;
    tiles[0][0].is_mine = true;
    tiles[4][4].fire = true;
    draw_ring(&mut tiles, (2, 2), 4);
    for x in 0..5 {
        for y in 0..5 {
            let on_ring = [(2, 3), (2, 1), (3, 2), (1, 2)].contains(&(x, y));
            let t = tiles[x][y];
            assert_eq!(t.fire, on_ring && !t.is_mine, "fire at {} {}", x, y);
            let open = (x, y) == (2, 2) || (x, y) == (2, 3);
            assert_eq!(t.state == TileState::Visible, open, "state at {} {}", x, y);
        }
    }
}

#[test]
fn ring_off_the_grid_opens_every_mine() {
    let mut tiles = vec![vec![Tile::default(); 3]; 3];
    tiles[0][0].is_mine = true;
    tiles[2][1].is_mine = true;
    tiles[1][1].fire = true;
    tiles[1][2].state = TileState::Marked;
    draw_ring(&mut tiles, (1, 1), 400);
    for x in 0..3 {
        for y in 0..3 {
            let t = tiles[x][y];
            assert!(!t.fire);
            if t.is_mine {
                assert_eq!(t.state, TileState::Visible);
            } else if (x, y) == (1, 2) {
                assert_eq!(t.state, TileState::Marked);
            } else {
                assert_eq!(t.state, TileState::Hidden);
            }
        }
    }
}

#[test]
fn circle_points_with_a_negative_step() {
    assert_eq!(
        circle_points((5, 5), -1, 2),
        vec![(4, 7), (6, 7), (4, 3), (6, 3), (7, 4), (3, 4), (7, 6), (3, 6)]
    );
    assert_eq!(circle_points((5, 5), -1, -1), vec![(4, 4), (6, 4), (4, 6), (6, 6)]);
    assert_eq!(circle_points((5, 5), 1, -1), vec![]);
}
