use baduk::Board;
use baduk::Player;
use baduk::Point;

#[test]
fn new_board_is_empty() {
    let board: Board<9> = Board::new();
    for r in 0..9 {
        for c in 0..9 {
            assert_eq!(board.get_point(r, c), Some(Point::Empty));
        }
    }
    assert_eq!(board.get_point(9, 0), None);
    assert_eq!(board.get_point(0, 9), None);
}

#[test]
fn opponent_is_involutive() {
    assert_eq!(Player::Black.opponent(), Player::White);
    assert_eq!(Player::White.opponent(), Player::Black);
    assert_eq!(Player::Black.opponent().opponent(), Player::Black);
}

#[test]
fn is_valid_coordinate_checks_both_axes() {
    let board: Board<9> = Board::new();
    assert!(board.is_valid_coordinate(0, 0));
    assert!(board.is_valid_coordinate(8, 8));
    assert!(!board.is_valid_coordinate(9, 0));
    assert!(!board.is_valid_coordinate(0, 9));
}

#[test]
fn placing_on_occupied_point_fails_and_changes_nothing() {
    let mut board: Board<9> = Board::new();
    assert!(board.place_stone(4, 4, Player::Black));
    let before = board.clone();
    assert!(!board.place_stone(4, 4, Player::White));
    assert!(board.grid_equals(&before));
    assert_eq!(board.get_point(4, 4), Some(Point::Stone(Player::Black)));
}

#[test]
fn placing_out_of_range_fails() {
    let mut board: Board<9> = Board::new();
    assert!(!board.place_stone(9, 0, Player::Black));
    assert!(!board.place_stone(0, 9, Player::Black));
}

#[test]
fn remove_stone_clears_and_is_idempotent() {
    let mut board: Board<9> = Board::new();
    board.place_stone(2, 3, Player::White);
    board.remove_stone(2, 3);
    assert_eq!(board.get_point(2, 3), Some(Point::Empty));
    board.remove_stone(2, 3);
    assert_eq!(board.get_point(2, 3), Some(Point::Empty));
    board.remove_stone(20, 20);
}

#[test]
fn adjacent_points_interior_edge_corner() {
    let board: Board<9> = Board::new();
    let interior = board.get_adjacent_points(4, 4);
    assert_eq!(interior, vec![(3, 4), (5, 4), (4, 3), (4, 5)]);
    let corner = board.get_adjacent_points(0, 0);
    assert_eq!(corner, vec![(1, 0), (0, 1)]);
    let edge = board.get_adjacent_points(0, 4);
    assert_eq!(edge, vec![(1, 4), (0, 3), (0, 5)]);
}

#[test]
fn isolated_stone_group_and_liberties_interior() {
    let mut board: Board<9> = Board::new();
    board.place_stone(4, 4, Player::Black);
    let group = board.get_group(4, 4);
    assert_eq!(group, vec![(4, 4)]);
    assert_eq!(board.count_liberties(&group), 4);
}

#[test]
fn isolated_stone_group_and_liberties_edge() {
    let mut board: Board<9> = Board::new();
    board.place_stone(0, 4, Player::White);
    let group = board.get_group(0, 4);
    assert_eq!(group.len(), 1);
    assert_eq!(board.count_liberties(&group), 3);
}

#[test]
fn isolated_stone_group_and_liberties_corner() {
    let mut board: Board<9> = Board::new();
    board.place_stone(0, 0, Player::Black);
    let group = board.get_group(0, 0);
    assert_eq!(group.len(), 1);
    assert_eq!(board.count_liberties(&group), 2);
}

#[test]
fn group_of_empty_or_out_of_range_start_is_empty() {
    let mut board: Board<9> = Board::new();
    board.place_stone(4, 4, Player::Black);
    assert!(board.get_group(3, 3).is_empty());
    assert!(board.get_group(10, 10).is_empty());
}

#[test]
fn connected_stones_form_one_group_and_share_liberties() {
    let mut board: Board<9> = Board::new();
    board.place_stone(4, 4, Player::Black);
    board.place_stone(4, 5, Player::Black);
    board.place_stone(5, 4, Player::Black);
    // A diagonal neighbor of the same color is not connected.
    board.place_stone(5, 5, Player::White);
    let group = board.get_group(4, 4);
    assert_eq!(group.len(), 3);
    assert!(group.contains(&(4, 4)));
    assert!(group.contains(&(4, 5)));
    assert!(group.contains(&(5, 4)));
    // Liberties, each distinct empty neighbor counted once:
    // (3,4),(3,5),(4,3),(4,6),(5,3),(6,4) -- (5,5) holds a white stone.
    assert_eq!(board.count_liberties(&group), 6);
}

#[test]
fn grid_equals_detects_any_difference() {
    let mut a: Board<5> = Board::new();
    let mut b: Board<5> = Board::new();
    assert!(a.grid_equals(&b));
    a.place_stone(1, 1, Player::Black);
    assert!(!a.grid_equals(&b));
    b.place_stone(1, 1, Player::Black);
    assert!(a.grid_equals(&b));
    b.remove_stone(1, 1);
    b.place_stone(1, 1, Player::White);
    assert!(!a.grid_equals(&b));
}
