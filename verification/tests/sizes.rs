use termsweeper::sizes::{check_compatible, get_compatible_sizes, is_playable};
use termsweeper::Difficulty;

#[test]
fn check_compatible_formula() {
    // 10 * 3 + 12 = 42 columns and 8 * 3 + 2 = 26 rows
    assert!(check_compatible((10, 8), (42, 26)));
    assert!(!check_compatible((10, 8), (41, 26)));
    assert!(!check_compatible((10, 8), (42, 25)));
    assert!(check_compatible((0, 0), (12, 2)));
    assert!(!check_compatible((0, 0), (11, 2)));
    assert!(!check_compatible((0, 0), (12, 1)));
    assert!(!check_compatible((usize::MAX, 1), (u16::MAX, u16::MAX)));
    assert!(!check_compatible((1, usize::MAX), (u16::MAX, u16::MAX)));
}

#[test]
fn sizes_on_a_large_terminal() {
    assert_eq!(get_compatible_sizes((200, 100)), [(10, 8), (18, 14), (20, 24)]);
}

#[test]
fn sizes_on_a_wide_and_low_terminal() {
    // 26 rows: at most 8 cells high
    assert_eq!(get_compatible_sizes((200, 26)), [(10, 8), (36, 7), (60, 8)]);
    // 29 rows: at most 9 cells high
    assert_eq!(get_compatible_sizes((200, 29)), [(10, 8), (28, 9), (60, 8)]);
}

#[test]
fn sizes_on_a_narrow_and_tall_terminal() {
    // 36 columns: at most 8 cells wide
    assert_eq!(get_compatible_sizes((36, 200)), [(8, 10), (7, 36), (8, 60)]);
}

#[test]
fn sizes_that_do_not_fit_are_zero() {
    assert_eq!(get_compatible_sizes((42, 26)), [(10, 8), (0, 0), (0, 0)]);
}

#[test]
fn playable_needs_the_smallest_board_and_the_preset() {
    assert!(is_playable(Difficulty::Easy, (42, 26)));
    assert!(!is_playable(Difficulty::Medium, (42, 26)));
    assert!(!is_playable(Difficulty::Hard, (42, 26)));
    assert!(!is_playable(Difficulty::Easy, (41, 26)));
    assert!(!is_playable(Difficulty::Easy, (0, 0)));
    assert!(is_playable(Difficulty::Hard, (200, 100)));
    assert!(is_playable(Difficulty::Medium, (200, 100)));
}
