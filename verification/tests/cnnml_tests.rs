use tron_coding_challenge::engine::direction::Direction;
use tron_coding_challenge::engine::grid::Grid;
use tron_coding_challenge::engine::player_id::PlayerId;
use tron_coding_challenge::players::stardustz_bots::cnnml::{
    get_2d, get_2d_mut, get_screen, get_size, parse_model_output, pos_is_blocked, pos_is_blocked_grid_pos,
    rotate_grid, ModelOutputDirection,
};
use tron_coding_challenge::engine::grid_position::GridPosition;

#[test]
fn square_tables() {
    let t: Vec<u32> = (0..9).collect();
    assert_eq!(get_size(&t), 3);
    assert_eq!(get_2d(&t, 1, 2), Some(&7));
    assert_eq!(get_2d(&t, 2, 2), Some(&8));
    assert_eq!(get_2d(&t, 0, 3), None);
    let odd: Vec<u32> = (0..10).collect();
    assert_eq!(get_size(&odd), 3);
    assert_eq!(get_2d(&odd, 0, 3), Some(&9));
}

#[test]
fn writing_a_square_table() {
    let mut t: Vec<u32> = (0..16).collect();
    *get_2d_mut(&mut t, 3, 1).unwrap() = 100;
    assert_eq!(get_2d(&t, 3, 1), Some(&100));
    assert_eq!(t[7], 100);
    assert!(get_2d_mut(&mut t, 0, 4).is_none());
}

#[test]
fn model_answers_turn_the_head() {
    let grid = Grid::new_default();
    let o = PlayerId::new_o();
    assert_eq!(ModelOutputDirection::from_index(0), ModelOutputDirection::Left);
    assert_eq!(ModelOutputDirection::from_index(2), ModelOutputDirection::Right);
    assert_eq!(parse_model_output(&grid, o, ModelOutputDirection::Up), Direction::NegativeX);
    assert_eq!(parse_model_output(&grid, o, ModelOutputDirection::Left), Direction::NegativeY);
    assert_eq!(parse_model_output(&grid, o, ModelOutputDirection::Right), Direction::PositiveY);
}

#[test]
fn blocked_cells() {
    let grid = Grid::new_default();
    assert!(pos_is_blocked(&grid, -1, 0));
    assert!(pos_is_blocked(&grid, 0, 21));
    assert!(pos_is_blocked(&grid, 9, 10));
    assert!(!pos_is_blocked(&grid, 10, 10));
    assert!(pos_is_blocked_grid_pos(&grid, None));
    assert!(pos_is_blocked_grid_pos(&grid, GridPosition::new(11, 10)));
    assert!(!pos_is_blocked_grid_pos(&grid, GridPosition::new(0, 0)));
}

#[test]
fn view_around_the_head() {
    let grid = Grid::new_default();
    let screen = get_screen(&grid, PlayerId::new_o());
    assert_eq!(screen.len(), 49);
    // The head itself sits at offset (0, 0), index 3 + 3 * 7.
    assert!(screen[3 + 3 * 7]);
    // Offset (2, 0) is X's head.
    assert!(screen[5 + 3 * 7]);
    // Offset (1, 0) is the empty cell between the heads.
    assert!(!screen[4 + 3 * 7]);
    // The last column and row are never looked at.
    assert!(!screen[6 + 3 * 7]);
    assert!(!screen[3 + 6 * 7]);
}

#[test]
fn turning_the_view() {
    let v: Vec<u32> = (0..49).collect();
    assert_eq!(rotate_grid(&v, Direction::PositiveY), v);
    let r = rotate_grid(&v, Direction::PositiveX);
    // (x, y) = (0, 0) lands on (6, 0).
    assert_eq!(r[6], 0);
    // (1, 0) lands on (6, 1).
    assert_eq!(r[6 + 7], 1);
    let back = rotate_grid(&rotate_grid(&v, Direction::NegativeY), Direction::NegativeY);
    assert_eq!(back, v);
    let four = rotate_grid(&rotate_grid(&rotate_grid(&r, Direction::PositiveX), Direction::PositiveX), Direction::PositiveX);
    assert_eq!(four, v);
}
