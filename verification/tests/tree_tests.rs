use baduk::BadukClassical;
use baduk::BadukMove;
use baduk::GameNode;
use baduk::GamePointer;
use baduk::GameTree;
use baduk::MoveError;
use baduk::Player;
use baduk::Point;

#[test]
fn make_move_twice_reuses_the_cached_child() {
    let game: BadukClassical<9> = BadukClassical::new();
    let mut tree: GameTree<BadukClassical<9>> = GameTree::new(game);
    let mv = BadukMove::Play { coordinates: (2, 2) };

    assert!(tree.root.make_move(mv).is_ok());
    assert_eq!(tree.root.children.len(), 1);
    let first_board = tree.root.children[0].1.game.board.clone();

    // The second request with the same move must hand back the identical
    // cached node: no new child, no recomputation, same successor state.
    assert!(tree.root.make_move(mv).is_ok());
    assert_eq!(tree.root.children.len(), 1);
    assert!(tree.root.children[0].1.game.board.grid_equals(&first_board));
    assert_eq!(tree.root.children[0].0, mv);
    assert_eq!(
        tree.root.children[0].1.game.board.get_point(2, 2),
        Some(Point::Stone(Player::Black))
    );
}

#[test]
fn make_move_rejects_an_illegal_move_and_adds_nothing() {
    let game: BadukClassical<9> = BadukClassical::new();
    let mut tree: GameTree<BadukClassical<9>> = GameTree::new(game);
    let res = tree.root.make_move(BadukMove::Play { coordinates: (9, 9) });
    assert!(matches!(res, Err(MoveError::IllegalMove)));
    assert_eq!(tree.root.children.len(), 0);
}

#[test]
fn distinct_moves_grow_distinct_children_in_order() {
    let game: BadukClassical<9> = BadukClassical::new();
    let mut tree: GameTree<BadukClassical<9>> = GameTree::new(game);
    let a = BadukMove::Play { coordinates: (0, 0) };
    let b = BadukMove::Play { coordinates: (5, 5) };
    assert!(tree.root.make_move(a).is_ok());
    assert!(tree.root.make_move(b).is_ok());
    assert!(tree.root.make_move(a).is_ok());
    assert_eq!(tree.root.children.len(), 2);
    assert_eq!(tree.root.children[0].0, a);
    assert_eq!(tree.root.children[1].0, b);
}

#[test]
fn pointer_descends_and_extends_the_tree() {
    let game: BadukClassical<9> = BadukClassical::new();
    let mut tree: GameTree<BadukClassical<9>> = GameTree::new(game);
    let mut pointer: GamePointer<BadukClassical<9>> = GamePointer::new();
    let m1 = BadukMove::Play { coordinates: (3, 3) };
    let m2 = BadukMove::Play { coordinates: (4, 4) };

    assert!(pointer.make_move(&mut tree, m1).is_ok());
    assert!(pointer.make_move(&mut tree, m2).is_ok());
    let active: &GameNode<BadukClassical<9>> = pointer.traverse_downward(&tree).unwrap();
    assert_eq!(active.game.board.get_point(3, 3), Some(Point::Stone(Player::Black)));
    assert_eq!(active.game.board.get_point(4, 4), Some(Point::Stone(Player::White)));
    assert_eq!(active.game.turn, Player::Black);
}

#[test]
fn undo_then_redo_resolves_to_the_same_cached_node() {
    let game: BadukClassical<9> = BadukClassical::new();
    let mut tree: GameTree<BadukClassical<9>> = GameTree::new(game);
    let mut pointer: GamePointer<BadukClassical<9>> = GamePointer::new();
    let m1 = BadukMove::Play { coordinates: (3, 3) };
    let m2 = BadukMove::Play { coordinates: (4, 4) };

    assert!(pointer.make_move(&mut tree, m1).is_ok());
    assert!(pointer.make_move(&mut tree, m2).is_ok());
    let before = pointer.traverse_downward(&tree).unwrap().game.board.clone();

    pointer.undo_move();
    let parent = pointer.traverse_downward(&tree).unwrap();
    assert_eq!(parent.game.board.get_point(4, 4), Some(Point::Empty));
    // The undone branch stays cached.
    assert_eq!(parent.children.len(), 1);

    assert!(pointer.make_move(&mut tree, m2).is_ok());
    let after = pointer.traverse_downward(&tree).unwrap();
    assert!(after.game.board.grid_equals(&before));
    // No duplicate child was created by the redo.
    pointer.undo_move();
    let parent_again = pointer.traverse_downward(&tree).unwrap();
    assert_eq!(parent_again.children.len(), 1);
}

#[test]
fn undo_at_the_root_is_a_no_op() {
    let game: BadukClassical<9> = BadukClassical::new();
    let tree: GameTree<BadukClassical<9>> = GameTree::new(game);
    let mut pointer: GamePointer<BadukClassical<9>> = GamePointer::new();
    pointer.undo_move();
    let node = pointer.traverse_downward(&tree).unwrap();
    assert_eq!(node.children.len(), 0);
    assert_eq!(node.game.turn, Player::Black);
}

#[test]
fn stale_pointer_reports_missing_move() {
    let game: BadukClassical<9> = BadukClassical::new();
    let mut tree: GameTree<BadukClassical<9>> = GameTree::new(game);
    let mut pointer: GamePointer<BadukClassical<9>> = GamePointer::new();
    assert!(pointer.make_move(&mut tree, BadukMove::Play { coordinates: (1, 1) }).is_ok());

    let other: BadukClassical<9> = BadukClassical::new();
    let mut fresh_tree: GameTree<BadukClassical<9>> = GameTree::new(other);
    let res = pointer.traverse_downward(&fresh_tree);
    assert!(matches!(res, Err(MoveError::MissingMove)));
    let res2 = pointer.make_move(&mut fresh_tree, BadukMove::Pass);
    assert!(matches!(res2, Err(MoveError::MissingMove)));
}

#[test]
fn pointer_rejects_an_illegal_move_without_recording_it() {
    let game: BadukClassical<9> = BadukClassical::new();
    let mut tree: GameTree<BadukClassical<9>> = GameTree::new(game);
    let mut pointer: GamePointer<BadukClassical<9>> = GamePointer::new();
    let res = pointer.make_move(&mut tree, BadukMove::Play { coordinates: (9, 0) });
    assert!(matches!(res, Err(MoveError::IllegalMove)));
    // The cursor still resolves to the root.
    let node = pointer.traverse_downward(&tree).unwrap();
    assert_eq!(node.game.turn, Player::Black);
    assert_eq!(node.children.len(), 0);
}
